//! Triangle meshes, triangle normals and the walkability pass.

use vstd::prelude::*;
use crate::arith::lemma_mul_bound;
use crate::math::{Aabb3d, I64Vec3, IVec3, COORD_MAX};
use crate::span::{AreaType, DEFAULT_WALKABLE_AREA};

verus! {

/// The value that stands for a cosine of one: a slope threshold is the
/// cosine of an angle times this.
pub const COS_ONE: i32 = 0x1_0000;

/// Largest magnitude of a component of the normal of a triangle whose
/// vertices are in range.
pub const NORMAL_MAX: i64 = 0x800_0000_0000;

/// The cross product `(b - a) x (c - a)`: a normal of the triangle `a b c`,
/// twice its area long, and zero where the three points lie on one line.
pub open spec fn spec_cross(a: IVec3, b: IVec3, c: IVec3) -> (int, int, int) {
    let ux = b.x - a.x;
    let uy = b.y - a.y;
    let uz = b.z - a.z;
    let vx = c.x - a.x;
    let vy = c.y - a.y;
    let vz = c.z - a.z;
    (uy * vz - uz * vy, uz * vx - ux * vz, ux * vy - uy * vx)
}

/// Whether the unit normal along `n` has a Y component above the threshold
/// cosine, `threshold_cos / COS_ONE`. The zero vector counts as a normal
/// with Y component 0.
///
/// With `s` the squared length of `n`, the comparison `n.y / sqrt(s) >
/// threshold_cos / COS_ONE` is decided on squares, by the signs of its two
/// sides.
pub open spec fn slope_walkable(n: (int, int, int), threshold_cos: int) -> bool {
    let s = n.0 * n.0 + n.1 * n.1 + n.2 * n.2;
    let l = n.1 * COS_ONE;
    if s == 0 {
        0 > threshold_cos
    } else if l >= 0 && threshold_cos < 0 {
        true
    } else if l <= 0 && threshold_cos >= 0 {
        false
    } else if l > 0 {
        l * l > threshold_cos * threshold_cos * s
    } else {
        l * l < threshold_cos * threshold_cos * s
    }
}

proof fn lemma_square_le(a: int, b: int)
    requires
        0 <= a <= b,
    ensures
        a * a <= b * b,
{
    assert(a * a <= b * b) by (nonlinear_arith)
        requires
            0 <= a <= b,
    ;
}

proof fn lemma_mul_le(a: int, b: int, s: int)
    requires
        a <= b,
        0 <= s,
    ensures
        a * s <= b * s,
{
    assert(a * s <= b * s) by (nonlinear_arith)
        requires
            a <= b,
            0 <= s,
    ;
}

/// A slope that is walkable under a threshold is walkable under every
/// lower threshold cosine, that is under every wider angle.
pub proof fn lemma_slope_walkable_monotone(n: (int, int, int), strict_cos: int, lax_cos: int)
    requires
        lax_cos <= strict_cos,
        slope_walkable(n, strict_cos),
    ensures
        slope_walkable(n, lax_cos),
{
    let s = n.0 * n.0 + n.1 * n.1 + n.2 * n.2;
    let l = n.1 * COS_ONE;
    assert(s >= 0) by (nonlinear_arith)
        requires
            s == n.0 * n.0 + n.1 * n.1 + n.2 * n.2,
    ;
    if s == 0 {
    } else if l >= 0 && lax_cos < 0 {
    } else if strict_cos >= 0 {
        // the strict test passed on squares with l > 0
        if lax_cos >= 0 {
            lemma_square_le(lax_cos, strict_cos);
            lemma_mul_le(lax_cos * lax_cos, strict_cos * strict_cos, s);
        }
    } else {
        // both thresholds are negative and l < 0
        lemma_square_le(-strict_cos, -lax_cos);
        assert((-strict_cos) * (-strict_cos) == strict_cos * strict_cos) by (nonlinear_arith);
        assert((-lax_cos) * (-lax_cos) == lax_cos * lax_cos) by (nonlinear_arith);
        lemma_mul_le(strict_cos * strict_cos, lax_cos * lax_cos, s);
    }
}

/// Decides [`slope_walkable`] for a normal within [`NORMAL_MAX`].
pub fn is_slope_walkable(n: I64Vec3, threshold_cos: i32) -> (r: bool)
    requires
        -NORMAL_MAX <= n.x <= NORMAL_MAX,
        -NORMAL_MAX <= n.y <= NORMAL_MAX,
        -NORMAL_MAX <= n.z <= NORMAL_MAX,
    ensures
        r == slope_walkable((n.x as int, n.y as int, n.z as int), threshold_cos as int),
{
    let ghost m: int = NORMAL_MAX as int;
    proof {
        lemma_mul_bound(n.x as int, n.x as int, m, m);
        lemma_mul_bound(n.y as int, n.y as int, m, m);
        lemma_mul_bound(n.z as int, n.z as int, m, m);
        assert(n.x * n.x >= 0) by (nonlinear_arith);
        assert(n.y * n.y >= 0) by (nonlinear_arith);
        assert(n.z * n.z >= 0) by (nonlinear_arith);
    }
    let xx: i128 = (n.x as i128) * (n.x as i128);
    let yy: i128 = (n.y as i128) * (n.y as i128);
    let zz: i128 = (n.z as i128) * (n.z as i128);
    let s: i128 = xx + yy + zz;
    if s == 0 {
        return 0 > threshold_cos;
    }
    let l: i128 = (n.y as i128) * (COS_ONE as i128);
    let ghost li: int = l as int;
    let ghost si: int = s as int;
    let ghost ci: int = threshold_cos as int;
    proof {
        // the unit normal's Y component lies within -1 and 1
        assert(li * li == (n.y * n.y) * (COS_ONE * COS_ONE)) by (nonlinear_arith)
            requires
                li == n.y * COS_ONE,
        ;
        assert(li * li <= si * (COS_ONE * COS_ONE)) by (nonlinear_arith)
            requires
                li * li == (n.y * n.y) * (COS_ONE * COS_ONE),
                n.y * n.y <= si,
        ;
    }
    if threshold_cos >= COS_ONE {
        proof {
            lemma_square_le(COS_ONE as int, ci);
            lemma_mul_le(COS_ONE * COS_ONE, ci * ci, si);
            assert(si * (COS_ONE * COS_ONE) == (COS_ONE * COS_ONE) * si) by (nonlinear_arith);
        }
        return false;
    }
    if threshold_cos < -COS_ONE {
        proof {
            lemma_square_le(COS_ONE as int, -ci);
            assert((-ci) * (-ci) == ci * ci) by (nonlinear_arith);
            assert(COS_ONE * COS_ONE < ci * ci) by (nonlinear_arith)
                requires
                    ci < -COS_ONE,
                    COS_ONE == 0x1_0000,
            ;
            assert((COS_ONE * COS_ONE) * si < (ci * ci) * si) by (nonlinear_arith)
                requires
                    COS_ONE * COS_ONE < ci * ci,
                    si > 0,
            ;
            assert(si * (COS_ONE * COS_ONE) == (COS_ONE * COS_ONE) * si) by (nonlinear_arith);
        }
        return true;
    }
    if l >= 0 && threshold_cos < 0 {
        return true;
    }
    if l <= 0 && threshold_cos >= 0 {
        return false;
    }
    proof {
        lemma_mul_bound(ci, ci, COS_ONE as int, COS_ONE as int);
        assert(ci * ci >= 0) by (nonlinear_arith);
        lemma_mul_bound(ci * ci, si, COS_ONE * COS_ONE, 3 * (m * m));
        lemma_mul_bound(li, li, m * COS_ONE, m * COS_ONE);
    }
    let cc: i128 = (threshold_cos as i128) * (threshold_cos as i128);
    let lhs: i128 = l * l;
    let rhs: i128 = cc * s;
    if l > 0 {
        lhs > rhs
    } else {
        lhs < rhs
    }
}

/// A triangle given by three indices into a vertex buffer.
pub trait TriangleIndices {
    /// Whether the three indices name vertices of the buffer, all in range.
    spec fn names_vertices_of(&self, vertices: Seq<IVec3>) -> bool;

    /// The normal `(b - a) x (c - a)` of the triangle over the buffer.
    spec fn spec_normal(&self, vertices: Seq<IVec3>) -> (int, int, int);

    /// The normal of the triangle, not normalized: its direction is that of
    /// the unit normal and it is zero for a triangle without area.
    fn normal(&self, vertices: &[IVec3]) -> (n: I64Vec3)
        requires
            self.names_vertices_of(vertices@),
        ensures
            (n.x as int, n.y as int, n.z as int) == self.spec_normal(vertices@),
            -NORMAL_MAX <= n.x <= NORMAL_MAX,
            -NORMAL_MAX <= n.y <= NORMAL_MAX,
            -NORMAL_MAX <= n.z <= NORMAL_MAX,
    ;
}

impl TriangleIndices for [u32; 3] {
    open spec fn names_vertices_of(&self, vertices: Seq<IVec3>) -> bool {
        &&& self[0] < vertices.len() && vertices[self[0] as int].in_range()
        &&& self[1] < vertices.len() && vertices[self[1] as int].in_range()
        &&& self[2] < vertices.len() && vertices[self[2] as int].in_range()
    }

    open spec fn spec_normal(&self, vertices: Seq<IVec3>) -> (int, int, int) {
        spec_cross(
            vertices[self[0] as int],
            vertices[self[1] as int],
            vertices[self[2] as int],
        )
    }

    fn normal(&self, vertices: &[IVec3]) -> (n: I64Vec3) {
        let a = vertices[self[0] as usize];
        let b = vertices[self[1] as usize];
        let c = vertices[self[2] as usize];
        cross(a, b, c)
    }
}

/// Computes [`spec_cross`] for three points in range.
pub fn cross(a: IVec3, b: IVec3, c: IVec3) -> (n: I64Vec3)
    requires
        a.in_range(),
        b.in_range(),
        c.in_range(),
    ensures
        (n.x as int, n.y as int, n.z as int) == spec_cross(a, b, c),
        -NORMAL_MAX <= n.x <= NORMAL_MAX,
        -NORMAL_MAX <= n.y <= NORMAL_MAX,
        -NORMAL_MAX <= n.z <= NORMAL_MAX,
{
    let ux: i64 = b.x as i64 - a.x as i64;
    let uy: i64 = b.y as i64 - a.y as i64;
    let uz: i64 = b.z as i64 - a.z as i64;
    let vx: i64 = c.x as i64 - a.x as i64;
    let vy: i64 = c.y as i64 - a.y as i64;
    let vz: i64 = c.z as i64 - a.z as i64;
    proof {
        let e: int = 2 * COORD_MAX;
        lemma_mul_bound(uy as int, vz as int, e, e);
        lemma_mul_bound(uz as int, vy as int, e, e);
        lemma_mul_bound(uz as int, vx as int, e, e);
        lemma_mul_bound(ux as int, vz as int, e, e);
        lemma_mul_bound(ux as int, vy as int, e, e);
        lemma_mul_bound(uy as int, vx as int, e, e);
    }
    I64Vec3 { x: uy * vz - uz * vy, y: uz * vx - ux * vz, z: ux * vy - uy * vx }
}

/// A triangle given by its three corners.
pub trait TriangleVertices {
    /// The corners.
    spec fn corners(&self) -> Seq<IVec3>;

    /// The smallest box that holds the triangle.
    fn aabb(&self) -> (b: Aabb3d)
        ensures
            b.is_hull_of(self.corners()),
    ;
}

impl TriangleVertices for [IVec3; 3] {
    open spec fn corners(&self) -> Seq<IVec3> {
        seq![self[0], self[1], self[2]]
    }

    fn aabb(&self) -> (b: Aabb3d) {
        let p = self[0];
        let q = self[1];
        let r = self[2];
        let b = Aabb3d {
            min: IVec3 { x: min3(p.x, q.x, r.x), y: min3(p.y, q.y, r.y), z: min3(p.z, q.z, r.z) },
            max: IVec3 { x: max3(p.x, q.x, r.x), y: max3(p.y, q.y, r.y), z: max3(p.z, q.z, r.z) },
        };
        proof {
            let s = self.corners();
            assert(s[0] == p && s[1] == q && s[2] == r);
            assert(b.contains(s[0]) && b.contains(s[1]) && b.contains(s[2]));
            assert(s[0].x == b.min.x || s[1].x == b.min.x || s[2].x == b.min.x);
            assert(s[0].y == b.min.y || s[1].y == b.min.y || s[2].y == b.min.y);
            assert(s[0].z == b.min.z || s[1].z == b.min.z || s[2].z == b.min.z);
            assert(s[0].x == b.max.x || s[1].x == b.max.x || s[2].x == b.max.x);
            assert(s[0].y == b.max.y || s[1].y == b.max.y || s[2].y == b.max.y);
            assert(s[0].z == b.max.z || s[1].z == b.max.z || s[2].z == b.max.z);
        }
        b
    }
}

/// The least of three numbers.
pub fn min3(a: i32, b: i32, c: i32) -> (r: i32)
    ensures
        r <= a && r <= b && r <= c,
        r == a || r == b || r == c,
{
    let m = if a <= b { a } else { b };
    if m <= c { m } else { c }
}

/// The greatest of three numbers.
pub fn max3(a: i32, b: i32, c: i32) -> (r: i32)
    ensures
        r >= a && r >= b && r >= c,
        r == a || r == b || r == c,
{
    let m = if a >= b { a } else { b };
    if m >= c { m } else { c }
}

/// A triangle mesh: vertices, triangles as index triples, and one area tag
/// for each triangle.
pub struct TriMesh {
    pub vertices: Vec<IVec3>,
    pub indices: Vec<[u32; 3]>,
    pub area_types: Vec<AreaType>,
}

/// The area tags after the walkability pass: a triangle whose slope is
/// walkable under the threshold has the default walkable tag, every other
/// triangle the tag that it had.
pub open spec fn marked_areas(
    vertices: Seq<IVec3>,
    indices: Seq<[u32; 3]>,
    areas: Seq<AreaType>,
    threshold_cos: int,
) -> Seq<AreaType> {
    Seq::new(
        areas.len(),
        |i: int|
            if slope_walkable(indices[i].spec_normal(vertices), threshold_cos) {
                AreaType(DEFAULT_WALKABLE_AREA)
            } else {
                areas[i]
            },
    )
}

/// A second pass with a stricter threshold, that is a cosine no lower
/// than the first, marks no triangle that the first pass did not mark: it
/// leaves every tag as the first pass left it.
pub proof fn lemma_stricter_pass_marks_nothing_new(
    vertices: Seq<IVec3>,
    indices: Seq<[u32; 3]>,
    areas: Seq<AreaType>,
    first_cos: int,
    second_cos: int,
)
    requires
        first_cos <= second_cos,
    ensures
        marked_areas(vertices, indices, marked_areas(vertices, indices, areas, first_cos), second_cos)
            == marked_areas(vertices, indices, areas, first_cos),
{
    let once = marked_areas(vertices, indices, areas, first_cos);
    let twice = marked_areas(vertices, indices, once, second_cos);
    assert forall|i: int| 0 <= i < areas.len() implies twice[i] == once[i] by {
        let n = indices[i].spec_normal(vertices);
        if slope_walkable(n, second_cos) {
            lemma_slope_walkable_monotone(n, second_cos, first_cos);
        }
    }
    assert(twice =~= once);
}

impl TriMesh {
    /// The invariant of a mesh: one area tag for each triangle, and every
    /// index names a vertex whose coordinates are in range.
    pub open spec fn wf(&self) -> bool {
        &&& self.area_types@.len() == self.indices@.len()
        &&& forall|i: int|
            0 <= i < self.indices@.len() ==> (#[trigger] self.indices@[i]).names_vertices_of(
                self.vertices@,
            )
    }

    /// Whether the index names a vertex with coordinates in range.
    fn names_vertex(&self, v: u32) -> (r: bool)
        ensures
            r == (v < self.vertices@.len() && self.vertices@[v as int].in_range()),
    {
        (v as usize) < self.vertices.len() && self.vertices[v as usize].is_in_range()
    }

    /// Runtime test of [`TriMesh::wf`].
    pub fn is_valid(&self) -> (r: bool)
        ensures
            r == self.wf(),
    {
        if self.area_types.len() != self.indices.len() {
            return false;
        }
        let mut i: usize = 0;
        while i < self.indices.len()
            invariant
                0 <= i <= self.indices@.len(),
                forall|k: int|
                    0 <= k < i ==> (#[trigger] self.indices@[k]).names_vertices_of(self.vertices@),
            decreases self.indices@.len() - i,
        {
            let t = self.indices[i];
            if !(self.names_vertex(t[0]) && self.names_vertex(t[1]) && self.names_vertex(t[2])) {
                assert(!self.indices@[i as int].names_vertices_of(self.vertices@));
                return false;
            }
            i += 1;
        }
        true
    }

    /// Marks the triangles as walkable by their slope.
    ///
    /// `threshold_cos` is the cosine of the steepest walkable slope, times
    /// [`COS_ONE`]. A triangle whose unit normal has a larger Y component
    /// gets the default walkable tag. No other tag changes, and nothing
    /// else of the mesh.
    pub fn mark_walkable_triangles(&mut self, threshold_cos: i32)
        requires
            old(self).wf(),
        ensures
            final(self).wf(),
            final(self).vertices == old(self).vertices,
            final(self).indices == old(self).indices,
            final(self).area_types@ == marked_areas(
                old(self).vertices@,
                old(self).indices@,
                old(self).area_types@,
                threshold_cos as int,
            ),
    {
        let ghost start = *self;
        let ghost goal = marked_areas(
            start.vertices@,
            start.indices@,
            start.area_types@,
            threshold_cos as int,
        );
        let mut i: usize = 0;
        while i < self.indices.len()
            invariant
                self.wf(),
                self.vertices == start.vertices,
                self.indices == start.indices,
                self.area_types@.len() == start.area_types@.len(),
                0 <= i <= self.indices@.len(),
                goal == marked_areas(
                    start.vertices@,
                    start.indices@,
                    start.area_types@,
                    threshold_cos as int,
                ),
                forall|k: int| 0 <= k < i ==> self.area_types@[k] == goal[k],
                forall|k: int|
                    i <= k < self.area_types@.len() ==> self.area_types@[k] == start.area_types@[k],
            decreases self.indices@.len() - i,
        {
            let triangle = self.indices[i];
            let normal = triangle.normal(self.vertices.as_slice());
            if is_slope_walkable(normal, threshold_cos) {
                self.area_types.set(i, AreaType::default_walkable());
            }
            i += 1;
        }
        assert(self.area_types@ =~= goal);
    }
}

} // verus!
