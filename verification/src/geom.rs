//! Geometric primitives: integer 3-vectors and colored triangles.
//!
//! All geometry in this crate is exact: positions are fixed-point integers
//! supplied by the caller, and every derived quantity is computed in integer
//! arithmetic, so the separating-axis test and the grid bookkeeping are free
//! of rounding.

use vstd::prelude::*;

verus! {

/// Largest magnitude allowed for a vertex coordinate.  Keeps all scaled
/// intermediate products of the voxelizer inside `i64`/`i128` range.
pub const COORD_LIMIT: i64 = 1048576;

/// Largest color channel value: colors are supplied on a 0..=255 scale.
pub const COLOR_LIMIT: i64 = 255;

/// A 3-component integer vector.
#[derive(Clone, Copy, PartialEq, Eq, Structural, Debug)]
pub struct Vec3i {
    pub x: i64,
    pub y: i64,
    pub z: i64,
}

/// The mathematical counterpart of `Vec3i`: a 3-vector with unbounded
/// integer components, used by specifications only.
pub ghost struct GVec {
    pub x: int,
    pub y: int,
    pub z: int,
}

impl GVec {
    /// Componentwise difference.
    pub open spec fn sub(self, o: GVec) -> GVec {
        GVec { x: self.x - o.x, y: self.y - o.y, z: self.z - o.z }
    }

    /// Scaling by an integer factor.
    pub open spec fn scale(self, k: int) -> GVec {
        GVec { x: self.x * k, y: self.y * k, z: self.z * k }
    }

    /// Dot product.
    pub open spec fn dot(self, o: GVec) -> int {
        self.x * o.x + self.y * o.y + self.z * o.z
    }

    /// Cross product.
    pub open spec fn cross(self, o: GVec) -> GVec {
        GVec {
            x: self.y * o.z - self.z * o.y,
            y: self.z * o.x - self.x * o.z,
            z: self.x * o.y - self.y * o.x,
        }
    }

    /// Componentwise minimum.
    pub open spec fn cmin(self, o: GVec) -> GVec {
        GVec {
            x: vstd::math::min(self.x, o.x),
            y: vstd::math::min(self.y, o.y),
            z: vstd::math::min(self.z, o.z),
        }
    }

    /// Componentwise maximum.
    pub open spec fn cmax(self, o: GVec) -> GVec {
        GVec {
            x: vstd::math::max(self.x, o.x),
            y: vstd::math::max(self.y, o.y),
            z: vstd::math::max(self.z, o.z),
        }
    }

    /// All components have magnitude at most `b`.
    pub open spec fn bounded(self, b: int) -> bool {
        &&& -b <= self.x <= b
        &&& -b <= self.y <= b
        &&& -b <= self.z <= b
    }
}

impl Vec3i {
    /// The mathematical value of this vector.
    pub open spec fn gv(self) -> GVec {
        GVec { x: self.x as int, y: self.y as int, z: self.z as int }
    }

    pub fn new(x: i64, y: i64, z: i64) -> (r: Vec3i)
        ensures
            r.gv() == (GVec { x: x as int, y: y as int, z: z as int }),
    {
        Vec3i { x, y, z }
    }

    /// Componentwise difference.
    pub fn sub(self, o: Vec3i) -> (r: Vec3i)
        requires
            self.gv().sub(o.gv()).bounded(i64::MAX as int),
        ensures
            r.gv() == self.gv().sub(o.gv()),
    {
        Vec3i { x: self.x - o.x, y: self.y - o.y, z: self.z - o.z }
    }

    /// Scaling by an integer factor.
    pub fn scale(self, k: i64) -> (r: Vec3i)
        requires
            self.gv().scale(k as int).bounded(i64::MAX as int),
        ensures
            r.gv() == self.gv().scale(k as int),
    {
        proof {
            assert(self.gv().scale(k as int).x == self.x as int * k as int);
        }
        Vec3i { x: self.x * k, y: self.y * k, z: self.z * k }
    }
}

/// One triangle vertex: a fixed-point integer position and a color on the
/// 0..=255 scale.
#[derive(Clone, Copy, PartialEq, Eq, Structural, Debug)]
pub struct TriVertex {
    pub position: Vec3i,
    pub color: Vec3i,
}

/// A triangle: three vertices, each with position and color.
#[derive(Clone, Copy, PartialEq, Eq, Structural, Debug)]
pub struct Triangle {
    pub v0: TriVertex,
    pub v1: TriVertex,
    pub v2: TriVertex,
}

impl TriVertex {
    pub fn new(position: Vec3i, color: Vec3i) -> (r: TriVertex)
        ensures
            r == (TriVertex { position, color }),
    {
        TriVertex { position, color }
    }

    /// Position within `COORD_LIMIT` and color channels within 0..=255.
    pub open spec fn valid(self) -> bool {
        &&& self.position.gv().bounded(COORD_LIMIT as int)
        &&& 0 <= self.color.x <= COLOR_LIMIT
        &&& 0 <= self.color.y <= COLOR_LIMIT
        &&& 0 <= self.color.z <= COLOR_LIMIT
    }
}

impl Triangle {
    pub fn new(v0: TriVertex, v1: TriVertex, v2: TriVertex) -> (r: Triangle)
        ensures
            r == (Triangle { v0, v1, v2 }),
    {
        Triangle { v0, v1, v2 }
    }

    pub open spec fn valid(self) -> bool {
        &&& self.v0.valid()
        &&& self.v1.valid()
        &&& self.v2.valid()
    }

    /// Componentwise minimum over the three vertex positions.
    pub open spec fn pos_min(self) -> GVec {
        self.v0.position.gv().cmin(self.v1.position.gv()).cmin(self.v2.position.gv())
    }

    /// Componentwise maximum over the three vertex positions.
    pub open spec fn pos_max(self) -> GVec {
        self.v0.position.gv().cmax(self.v1.position.gv()).cmax(self.v2.position.gv())
    }
}

} // verus!
