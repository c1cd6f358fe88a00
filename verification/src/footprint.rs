//! A triangle over a rectangle of the horizontal plane: whether it reaches
//! the rectangle, and between which heights it does.

use vstd::prelude::*;
use crate::arith::{
    ceil_div,
    ceil_div_i128,
    floor_div,
    floor_div_i128,
    lemma_affine_over_rectangle,
    lemma_cancel,
    lemma_ceil_div,
    lemma_floor_div,
    lemma_mul_bound,
    lemma_scale_up,
    lemma_weighted_between,
};
use crate::math::{I64Vec3, IVec3, COORD_MAX};
use crate::trimesh::{max3, min3, spec_cross, NORMAL_MAX};

verus! {

/// Largest magnitude of a coordinate of a rectangle.
pub const RECT_MAX: i64 = 0x2_0000_0000;

pub open spec fn spec_min3(a: int, b: int, c: int) -> int {
    if a <= b && a <= c {
        a
    } else if b <= c {
        b
    } else {
        c
    }
}

pub open spec fn spec_max3(a: int, b: int, c: int) -> int {
    if a >= b && a >= c {
        a
    } else if b >= c {
        b
    } else {
        c
    }
}

pub open spec fn spec_min4(a: int, b: int, c: int, d: int) -> int {
    let m = spec_min3(a, b, c);
    if m <= d {
        m
    } else {
        d
    }
}

pub open spec fn spec_max4(a: int, b: int, c: int, d: int) -> int {
    let m = spec_max3(a, b, c);
    if m >= d {
        m
    } else {
        d
    }
}

/// The value nearest to `v` between `lo` and `hi`.
pub open spec fn clamp(v: int, lo: int, hi: int) -> int {
    if v < lo {
        lo
    } else if v > hi {
        hi
    } else {
        v
    }
}

/// On which side of the line through `p` and `q`, seen from above, the
/// point `(x, z)` lies: positive on one side, negative on the other, zero
/// on the line.
pub open spec fn edge_side(p: IVec3, q: IVec3, x: int, z: int) -> int {
    (q.x - p.x) * (z - p.z) - (q.z - p.z) * (x - p.x)
}

/// Whether the whole rectangle lies strictly beyond the edge `p q` of a
/// triangle with third corner `r`: all four corners lie strictly on the
/// side of the edge's line that `r` is not on.
pub open spec fn beyond_edge(p: IVec3, q: IVec3, r: IVec3, x0: int, z0: int, x1: int, z1: int) -> bool {
    let s = edge_side(p, q, r.x as int, r.z as int);
    let lo = spec_min4(
        edge_side(p, q, x0, z0),
        edge_side(p, q, x0, z1),
        edge_side(p, q, x1, z0),
        edge_side(p, q, x1, z1),
    );
    let hi = spec_max4(
        edge_side(p, q, x0, z0),
        edge_side(p, q, x0, z1),
        edge_side(p, q, x1, z0),
        edge_side(p, q, x1, z1),
    );
    (s >= 0 && hi < 0) || (s <= 0 && lo > 0)
}

/// Whether the triangle, seen from above, reaches the rectangle
/// `[x0, x1] x [z0, z1]`: their bounding boxes meet and the rectangle lies
/// beyond none of the three edges.
pub open spec fn touches(tri: [IVec3; 3], x0: int, z0: int, x1: int, z1: int) -> bool {
    &&& spec_min3(tri[0].x as int, tri[1].x as int, tri[2].x as int) <= x1
    &&& spec_max3(tri[0].x as int, tri[1].x as int, tri[2].x as int) >= x0
    &&& spec_min3(tri[0].z as int, tri[1].z as int, tri[2].z as int) <= z1
    &&& spec_max3(tri[0].z as int, tri[1].z as int, tri[2].z as int) >= z0
    &&& !beyond_edge(tri[0], tri[1], tri[2], x0, z0, x1, z1)
    &&& !beyond_edge(tri[1], tri[2], tri[0], x0, z0, x1, z1)
    &&& !beyond_edge(tri[2], tri[0], tri[1], x0, z0, x1, z1)
}

/// How far the plane of a triangle with normal `n` through `a` rises from
/// `a` to the point above `(x, z)`, times `n.1`.
pub open spec fn rise(n: (int, int, int), a: IVec3, x: int, z: int) -> int {
    -(n.0 * (x - a.x) + n.2 * (z - a.z))
}

/// Bounds of the heights that the triangle has above the rectangle: an
/// integer not above the lowest and an integer not below the highest.
///
/// The heights of a triangle lie between those of its lowest and its
/// highest corner. Where its plane is not vertical they lie, above the
/// rectangle, also between the least and the greatest height of the plane
/// above the rectangle's corners. The result is the range common to both,
/// rounded outwards.
pub open spec fn height_range(tri: [IVec3; 3], x0: int, z0: int, x1: int, z1: int) -> (int, int) {
    let n = spec_cross(tri[0], tri[1], tri[2]);
    let bottom = spec_min3(tri[0].y as int, tri[1].y as int, tri[2].y as int);
    let top = spec_max3(tri[0].y as int, tri[1].y as int, tri[2].y as int);
    if n.1 == 0 {
        (bottom, top)
    } else {
        let d = if n.1 > 0 { n.1 } else { -n.1 };
        let sign: int = if n.1 > 0 { 1 } else { -1 };
        let least = spec_min4(
            sign * rise(n, tri[0], x0, z0),
            sign * rise(n, tri[0], x0, z1),
            sign * rise(n, tri[0], x1, z0),
            sign * rise(n, tri[0], x1, z1),
        );
        let greatest = spec_max4(
            sign * rise(n, tri[0], x0, z0),
            sign * rise(n, tri[0], x0, z1),
            sign * rise(n, tri[0], x1, z0),
            sign * rise(n, tri[0], x1, z1),
        );
        let lo = clamp(tri[0].y + floor_div(least, d), bottom, top);
        let hi = clamp(tri[0].y + ceil_div(greatest, d), lo, top);
        (lo, hi)
    }
}

/// Whether all three corners are in range.
pub open spec fn corners_in_range(tri: [IVec3; 3]) -> bool {
    tri[0].in_range() && tri[1].in_range() && tri[2].in_range()
}

/// The range of heights lies between the lowest and the highest corner.
pub proof fn lemma_height_range_within(tri: [IVec3; 3], x0: int, z0: int, x1: int, z1: int)
    ensures
        spec_min3(tri[0].y as int, tri[1].y as int, tri[2].y as int) <= height_range(
            tri,
            x0,
            z0,
            x1,
            z1,
        ).0,
        height_range(tri, x0, z0, x1, z1).0 <= height_range(tri, x0, z0, x1, z1).1,
        height_range(tri, x0, z0, x1, z1).1 <= spec_max3(
            tri[0].y as int,
            tri[1].y as int,
            tri[2].y as int,
        ),
{
}

fn min4_i128(a: i128, b: i128, c: i128, d: i128) -> (r: i128)
    ensures
        r == spec_min4(a as int, b as int, c as int, d as int),
{
    let m = if a <= b && a <= c { a } else if b <= c { b } else { c };
    if m <= d { m } else { d }
}

fn max4_i128(a: i128, b: i128, c: i128, d: i128) -> (r: i128)
    ensures
        r == spec_max4(a as int, b as int, c as int, d as int),
{
    let m = if a >= b && a >= c { a } else if b >= c { b } else { c };
    if m >= d { m } else { d }
}

fn edge_side_of(p: IVec3, q: IVec3, x: i64, z: i64) -> (e: i128)
    requires
        p.in_range(),
        q.in_range(),
        -RECT_MAX <= x <= RECT_MAX,
        -RECT_MAX <= z <= RECT_MAX,
    ensures
        e == edge_side(p, q, x as int, z as int),
{
    let dx: i128 = q.x as i128 - p.x as i128;
    let dz: i128 = q.z as i128 - p.z as i128;
    let rx: i128 = x as i128 - p.x as i128;
    let rz: i128 = z as i128 - p.z as i128;
    proof {
        lemma_mul_bound(dx as int, rz as int, 2 * COORD_MAX, RECT_MAX + COORD_MAX);
        lemma_mul_bound(dz as int, rx as int, 2 * COORD_MAX, RECT_MAX + COORD_MAX);
    }
    dx * rz - dz * rx
}

fn is_beyond_edge(p: IVec3, q: IVec3, r: IVec3, x0: i64, z0: i64, x1: i64, z1: i64) -> (b: bool)
    requires
        p.in_range(),
        q.in_range(),
        r.in_range(),
        -RECT_MAX <= x0 <= RECT_MAX,
        -RECT_MAX <= z0 <= RECT_MAX,
        -RECT_MAX <= x1 <= RECT_MAX,
        -RECT_MAX <= z1 <= RECT_MAX,
    ensures
        b == beyond_edge(p, q, r, x0 as int, z0 as int, x1 as int, z1 as int),
{
    let s = edge_side_of(p, q, r.x as i64, r.z as i64);
    let e00 = edge_side_of(p, q, x0, z0);
    let e01 = edge_side_of(p, q, x0, z1);
    let e10 = edge_side_of(p, q, x1, z0);
    let e11 = edge_side_of(p, q, x1, z1);
    let lo = min4_i128(e00, e01, e10, e11);
    let hi = max4_i128(e00, e01, e10, e11);
    (s >= 0 && hi < 0) || (s <= 0 && lo > 0)
}

/// Decides [`touches`].
pub fn is_touched(tri: &[IVec3; 3], x0: i64, z0: i64, x1: i64, z1: i64) -> (b: bool)
    requires
        corners_in_range(*tri),
        -RECT_MAX <= x0 <= RECT_MAX,
        -RECT_MAX <= z0 <= RECT_MAX,
        -RECT_MAX <= x1 <= RECT_MAX,
        -RECT_MAX <= z1 <= RECT_MAX,
    ensures
        b == touches(*tri, x0 as int, z0 as int, x1 as int, z1 as int),
{
    let a = tri[0];
    let b = tri[1];
    let c = tri[2];
    let min_x = min3(a.x, b.x, c.x);
    let max_x = max3(a.x, b.x, c.x);
    let min_z = min3(a.z, b.z, c.z);
    let max_z = max3(a.z, b.z, c.z);
    min_x as i64 <= x1 && max_x as i64 >= x0 && min_z as i64 <= z1 && max_z as i64 >= z0
        && !is_beyond_edge(a, b, c, x0, z0, x1, z1) && !is_beyond_edge(b, c, a, x0, z0, x1, z1)
        && !is_beyond_edge(c, a, b, x0, z0, x1, z1)
}

fn rise_of(n: I64Vec3, a: IVec3, x: i64, z: i64) -> (r: i128)
    requires
        a.in_range(),
        -NORMAL_MAX <= n.x <= NORMAL_MAX,
        -NORMAL_MAX <= n.z <= NORMAL_MAX,
        -RECT_MAX <= x <= RECT_MAX,
        -RECT_MAX <= z <= RECT_MAX,
    ensures
        r == rise((n.x as int, n.y as int, n.z as int), a, x as int, z as int),
        -0x4000_0000_0000_0000_0000 <= r <= 0x4000_0000_0000_0000_0000,
{
    let rx: i128 = x as i128 - a.x as i128;
    let rz: i128 = z as i128 - a.z as i128;
    proof {
        lemma_mul_bound(n.x as int, rx as int, NORMAL_MAX as int, RECT_MAX + COORD_MAX);
        lemma_mul_bound(n.z as int, rz as int, NORMAL_MAX as int, RECT_MAX + COORD_MAX);
        assert(0x800_0000_0000int * (0x2_0000_0000int + 0x10_0000int) < 0x2000_0000_0000_0000_0000int);
    }
    -((n.x as i128) * rx + (n.z as i128) * rz)
}

fn clamp_i128(v: i128, lo: i32, hi: i32) -> (r: i32)
    requires
        lo <= hi,
    ensures
        r == clamp(v as int, lo as int, hi as int),
{
    if v < lo as i128 {
        lo
    } else if v > hi as i128 {
        hi
    } else {
        v as i32
    }
}

/// Computes [`height_range`]. `n` is the normal of the triangle.
pub fn height_range_of(tri: &[IVec3; 3], n: I64Vec3, x0: i64, z0: i64, x1: i64, z1: i64) -> (r: (
    i32,
    i32,
))
    requires
        corners_in_range(*tri),
        (n.x as int, n.y as int, n.z as int) == spec_cross(tri[0], tri[1], tri[2]),
        -NORMAL_MAX <= n.x <= NORMAL_MAX,
        -NORMAL_MAX <= n.y <= NORMAL_MAX,
        -NORMAL_MAX <= n.z <= NORMAL_MAX,
        -RECT_MAX <= x0 <= RECT_MAX,
        -RECT_MAX <= z0 <= RECT_MAX,
        -RECT_MAX <= x1 <= RECT_MAX,
        -RECT_MAX <= z1 <= RECT_MAX,
    ensures
        (r.0 as int, r.1 as int) == height_range(*tri, x0 as int, z0 as int, x1 as int, z1 as int),
{
    let a = tri[0];
    let bottom = min3(a.y, tri[1].y, tri[2].y);
    let top = max3(a.y, tri[1].y, tri[2].y);
    if n.y == 0 {
        return (bottom, top);
    }
    let r00 = rise_of(n, a, x0, z0);
    let r01 = rise_of(n, a, x0, z1);
    let r10 = rise_of(n, a, x1, z0);
    let r11 = rise_of(n, a, x1, z1);
    let d: i128 = if n.y > 0 { n.y as i128 } else { -(n.y as i128) };
    let least;
    let greatest;
    if n.y > 0 {
        least = min4_i128(r00, r01, r10, r11);
        greatest = max4_i128(r00, r01, r10, r11);
        assert(1 * (r00 as int) == r00 && 1 * (r01 as int) == r01 && 1 * (r10 as int) == r10 && 1 * (
        r11 as int) == r11);
    } else {
        least = min4_i128(-r00, -r01, -r10, -r11);
        greatest = max4_i128(-r00, -r01, -r10, -r11);
        assert((-1) * (r00 as int) == -r00 && (-1) * (r01 as int) == -r01 && (-1) * (r10 as int)
            == -r10 && (-1) * (r11 as int) == -r11);
    }
    let lo = clamp_i128(a.y as i128 + floor_div_i128(least, d), bottom, top);
    let hi = clamp_i128(a.y as i128 + ceil_div_i128(greatest, d), lo, top);
    (lo, hi)
}

} // verus!

verus! {

/// A point of a triangle, given by the weights of the three corners: the
/// point is `(u * a + v * b + w * c) / (u + v + w)`. Every point of the
/// triangle with rational coordinates has such weights.
pub struct Weights {
    pub u: int,
    pub v: int,
    pub w: int,
}

impl Weights {
    /// No weight is negative and not all are zero.
    pub open spec fn valid(self) -> bool {
        self.u >= 0 && self.v >= 0 && self.w >= 0 && self.total() > 0
    }

    pub open spec fn total(self) -> int {
        self.u + self.v + self.w
    }

    /// The point's X, times the total weight.
    pub open spec fn x_of(self, tri: [IVec3; 3]) -> int {
        self.u * tri[0].x + self.v * tri[1].x + self.w * tri[2].x
    }

    /// The point's Y, times the total weight.
    pub open spec fn y_of(self, tri: [IVec3; 3]) -> int {
        self.u * tri[0].y + self.v * tri[1].y + self.w * tri[2].y
    }

    /// The point's Z, times the total weight.
    pub open spec fn z_of(self, tri: [IVec3; 3]) -> int {
        self.u * tri[0].z + self.v * tri[1].z + self.w * tri[2].z
    }

    /// Whether the point lies above or below the rectangle `[x0, x1] x [z0, z1]`.
    pub open spec fn over(self, tri: [IVec3; 3], x0: int, z0: int, x1: int, z1: int) -> bool {
        &&& x0 * self.total() <= self.x_of(tri) <= x1 * self.total()
        &&& z0 * self.total() <= self.z_of(tri) <= z1 * self.total()
    }
}

/// A rectangle that holds a point of the triangle `p q r` does not lie
/// beyond the edge `p q`. The point is given by the weights of `p`, `q`
/// and `r` and by its numerators `px` and `pz`.
pub proof fn lemma_point_not_beyond_edge(
    p: IVec3,
    q: IVec3,
    r: IVec3,
    wp: int,
    wq: int,
    wr: int,
    px: int,
    pz: int,
    x0: int,
    z0: int,
    x1: int,
    z1: int,
)
    requires
        wp >= 0 && wq >= 0 && wr >= 0,
        wp + wq + wr > 0,
        px == wp * p.x + wq * q.x + wr * r.x,
        pz == wp * p.z + wq * q.z + wr * r.z,
        x0 * (wp + wq + wr) <= px <= x1 * (wp + wq + wr),
        z0 * (wp + wq + wr) <= pz <= z1 * (wp + wq + wr),
    ensures
        !beyond_edge(p, q, r, x0, z0, x1, z1),
{
    let d = wp + wq + wr;
    let ea = q.x - p.x;
    let eb = q.z - p.z;
    // the side of a point as a form a * x + b * z + c
    let a = -eb;
    let b = ea;
    let c = eb * p.x - ea * p.z;
    let s = edge_side(p, q, r.x as int, r.z as int);
    let e00 = edge_side(p, q, x0, z0);
    let e01 = edge_side(p, q, x0, z1);
    let e10 = edge_side(p, q, x1, z0);
    let e11 = edge_side(p, q, x1, z1);
    assert(e00 == a * x0 + b * z0 + c) by (nonlinear_arith)
        requires
            e00 == ea * (z0 - p.z) - eb * (x0 - p.x),
            a == -eb,
            b == ea,
            c == eb * p.x - ea * p.z,
    ;
    assert(e01 == a * x0 + b * z1 + c) by (nonlinear_arith)
        requires
            e01 == ea * (z1 - p.z) - eb * (x0 - p.x),
            a == -eb,
            b == ea,
            c == eb * p.x - ea * p.z,
    ;
    assert(e10 == a * x1 + b * z0 + c) by (nonlinear_arith)
        requires
            e10 == ea * (z0 - p.z) - eb * (x1 - p.x),
            a == -eb,
            b == ea,
            c == eb * p.x - ea * p.z,
    ;
    assert(e11 == a * x1 + b * z1 + c) by (nonlinear_arith)
        requires
            e11 == ea * (z1 - p.z) - eb * (x1 - p.x),
            a == -eb,
            b == ea,
            c == eb * p.x - ea * p.z,
    ;
    let lo = spec_min4(e00, e01, e10, e11);
    let hi = spec_max4(e00, e01, e10, e11);
    lemma_affine_over_rectangle(a, b, c, px, pz, d, x0, z0, x1, z1, lo, hi);
    let side = a * px + b * pz + c * d;
    // the point's side is that of the third corner, scaled by its weight
    let tx = px - p.x * d;
    let tz = pz - p.z * d;
    assert(tx == wq * ea + wr * (r.x - p.x)) by (nonlinear_arith)
        requires
            tx == px - p.x * d,
            px == wp * p.x + wq * q.x + wr * r.x,
            d == wp + wq + wr,
            ea == q.x - p.x,
    ;
    assert(tz == wq * eb + wr * (r.z - p.z)) by (nonlinear_arith)
        requires
            tz == pz - p.z * d,
            pz == wp * p.z + wq * q.z + wr * r.z,
            d == wp + wq + wr,
            eb == q.z - p.z,
    ;
    assert(side == ea * tz - eb * tx) by (nonlinear_arith)
        requires
            side == a * px + b * pz + c * d,
            a == -eb,
            b == ea,
            c == eb * p.x - ea * p.z,
            tx == px - p.x * d,
            tz == pz - p.z * d,
    ;
    assert(ea * tz - eb * tx == wr * s) by (nonlinear_arith)
        requires
            tx == wq * ea + wr * (r.x - p.x),
            tz == wq * eb + wr * (r.z - p.z),
            s == ea * (r.z - p.z) - eb * (r.x - p.x),
    ;
    if s >= 0 && hi < 0 {
        lemma_scale_up(wr, 0, s);
        assert(d * hi < 0) by (nonlinear_arith)
            requires
                d > 0,
                hi < 0,
        ;
    }
    if s <= 0 && lo > 0 {
        lemma_scale_up(wr, s, 0);
        assert(d * lo > 0) by (nonlinear_arith)
            requires
                d > 0,
                lo > 0,
        ;
    }
}

/// Conservative rasterization, seen from above: a rectangle over which the
/// triangle has a point is a rectangle that the triangle touches.
pub proof fn lemma_point_touches(tri: [IVec3; 3], at: Weights, x0: int, z0: int, x1: int, z1: int)
    requires
        at.valid(),
        at.over(tri, x0, z0, x1, z1),
    ensures
        touches(tri, x0, z0, x1, z1),
{
    let d = at.total();
    let px = at.x_of(tri);
    let pz = at.z_of(tri);
    let min_x = spec_min3(tri[0].x as int, tri[1].x as int, tri[2].x as int);
    let max_x = spec_max3(tri[0].x as int, tri[1].x as int, tri[2].x as int);
    let min_z = spec_min3(tri[0].z as int, tri[1].z as int, tri[2].z as int);
    let max_z = spec_max3(tri[0].z as int, tri[1].z as int, tri[2].z as int);
    lemma_weighted_between(
        at.u,
        at.v,
        at.w,
        tri[0].x as int,
        tri[1].x as int,
        tri[2].x as int,
        min_x,
        max_x,
    );
    lemma_weighted_between(
        at.u,
        at.v,
        at.w,
        tri[0].z as int,
        tri[1].z as int,
        tri[2].z as int,
        min_z,
        max_z,
    );
    assert(d * min_x == min_x * d && d * max_x == max_x * d && d * x0 == x0 * d && d * x1 == x1
        * d) by (nonlinear_arith);
    assert(d * min_z == min_z * d && d * max_z == max_z * d && d * z0 == z0 * d && d * z1 == z1
        * d) by (nonlinear_arith);
    lemma_cancel(d, min_x, x1);
    lemma_cancel(d, x0, max_x);
    lemma_cancel(d, min_z, z1);
    lemma_cancel(d, z0, max_z);
    lemma_point_not_beyond_edge(tri[0], tri[1], tri[2], at.u, at.v, at.w, px, pz, x0, z0, x1, z1);
    lemma_point_not_beyond_edge(tri[1], tri[2], tri[0], at.v, at.w, at.u, px, pz, x0, z0, x1, z1);
    lemma_point_not_beyond_edge(tri[2], tri[0], tri[1], at.w, at.u, at.v, px, pz, x0, z0, x1, z1);
}

/// `n * (v * p + w * q) == v * (n * p) + w * (n * q)`.
proof fn lemma_spread(n: int, v: int, p: int, w: int, q: int)
    ensures
        n * (v * p + w * q) == v * (n * p) + w * (n * q),
{
    assert(n * (v * p + w * q) == v * (n * p) + w * (n * q)) by (nonlinear_arith);
}

/// The rise of a plane as a form in `x` and `z`.
proof fn lemma_rise_form(m0: int, m2: int, ax: int, az: int, x: int, z: int)
    ensures
        -(m0 * (x - ax) + m2 * (z - az)) == (-m0) * x + (-m2) * z + (m0 * ax + m2 * az),
{
    assert(-(m0 * (x - ax) + m2 * (z - az)) == (-m0) * x + (-m2) * z + (m0 * ax + m2 * az))
        by (nonlinear_arith);
}

/// A point of a plane over a rectangle lies between the heights that the
/// plane has over the corners, rounded outwards. The plane passes through
/// `(ax, ay, az)` with a normal `(m0, d, m2)` that points up.
proof fn lemma_plane_over_rectangle(
    m0: int,
    d: int,
    m2: int,
    ax: int,
    ay: int,
    az: int,
    px: int,
    py: int,
    pz: int,
    t: int,
    x0: int,
    z0: int,
    x1: int,
    z1: int,
    least: int,
    greatest: int,
)
    requires
        d > 0,
        t > 0,
        x0 * t <= px <= x1 * t,
        z0 * t <= pz <= z1 * t,
        d * (py - ay * t) == -(m0 * (px - ax * t) + m2 * (pz - az * t)),
        least <= -(m0 * (x0 - ax) + m2 * (z0 - az)) <= greatest,
        least <= -(m0 * (x0 - ax) + m2 * (z1 - az)) <= greatest,
        least <= -(m0 * (x1 - ax) + m2 * (z0 - az)) <= greatest,
        least <= -(m0 * (x1 - ax) + m2 * (z1 - az)) <= greatest,
    ensures
        (ay + floor_div(least, d)) * t <= py <= (ay + ceil_div(greatest, d)) * t,
{
    let fa = -m0;
    let fb = -m2;
    let fc = m0 * ax + m2 * az;
    lemma_rise_form(m0, m2, ax, az, x0, z0);
    lemma_rise_form(m0, m2, ax, az, x0, z1);
    lemma_rise_form(m0, m2, ax, az, x1, z0);
    lemma_rise_form(m0, m2, ax, az, x1, z1);
    lemma_affine_over_rectangle(fa, fb, fc, px, pz, t, x0, z0, x1, z1, least, greatest);
    let form = fa * px + fb * pz + fc * t;
    let ty = py - ay * t;
    assert(m0 * (px - ax * t) == m0 * px - (m0 * ax) * t) by (nonlinear_arith);
    assert(m2 * (pz - az * t) == m2 * pz - (m2 * az) * t) by (nonlinear_arith);
    assert((m0 * ax + m2 * az) * t == (m0 * ax) * t + (m2 * az) * t) by (nonlinear_arith);
    assert((-m0) * px == -(m0 * px)) by (nonlinear_arith);
    assert((-m2) * pz == -(m2 * pz)) by (nonlinear_arith);
    assert(form == -(m0 * (px - ax * t) + m2 * (pz - az * t)));
    assert(form == d * ty);
    let down = floor_div(least, d);
    let up = ceil_div(greatest, d);
    lemma_floor_div(least, d);
    lemma_ceil_div(greatest, d);
    lemma_scale_up(t, d * down, least);
    lemma_scale_up(t, greatest, d * up);
    assert(t * (d * down) == d * (t * down)) by (nonlinear_arith);
    assert(t * (d * up) == d * (t * up)) by (nonlinear_arith);
    lemma_cancel(d, t * down, ty);
    lemma_cancel(d, ty, t * up);
    assert((ay + down) * t == ay * t + t * down) by (nonlinear_arith);
    assert((ay + up) * t == ay * t + t * up) by (nonlinear_arith);
}

/// A point of the triangle lies in the triangle's plane: the normal is
/// perpendicular to the way from the first corner to the point.
pub proof fn lemma_point_in_plane(tri: [IVec3; 3], at: Weights)
    ensures
        ({
            let n = spec_cross(tri[0], tri[1], tri[2]);
            let d = at.total();
            n.1 * (at.y_of(tri) - tri[0].y * d) == -(n.0 * (at.x_of(tri) - tri[0].x * d) + n.2 * (
            at.z_of(tri) - tri[0].z * d))
        }),
{
    let n = spec_cross(tri[0], tri[1], tri[2]);
    let d = at.total();
    let ux = tri[1].x - tri[0].x;
    let uy = tri[1].y - tri[0].y;
    let uz = tri[1].z - tri[0].z;
    let vx = tri[2].x - tri[0].x;
    let vy = tri[2].y - tri[0].y;
    let vz = tri[2].z - tri[0].z;
    let tx = at.x_of(tri) - tri[0].x * d;
    let ty = at.y_of(tri) - tri[0].y * d;
    let tz = at.z_of(tri) - tri[0].z * d;
    assert(tx == at.v * ux + at.w * vx) by (nonlinear_arith)
        requires
            tx == (at.u * tri[0].x + at.v * tri[1].x + at.w * tri[2].x) - tri[0].x * (at.u + at.v
                + at.w),
            ux == tri[1].x - tri[0].x,
            vx == tri[2].x - tri[0].x,
    ;
    assert(ty == at.v * uy + at.w * vy) by (nonlinear_arith)
        requires
            ty == (at.u * tri[0].y + at.v * tri[1].y + at.w * tri[2].y) - tri[0].y * (at.u + at.v
                + at.w),
            uy == tri[1].y - tri[0].y,
            vy == tri[2].y - tri[0].y,
    ;
    assert(tz == at.v * uz + at.w * vz) by (nonlinear_arith)
        requires
            tz == (at.u * tri[0].z + at.v * tri[1].z + at.w * tri[2].z) - tri[0].z * (at.u + at.v
                + at.w),
            uz == tri[1].z - tri[0].z,
            vz == tri[2].z - tri[0].z,
    ;
    let n0 = uy * vz - uz * vy;
    let n1 = uz * vx - ux * vz;
    let n2 = ux * vy - uy * vx;
    assert(n == (n0, n1, n2));
    // the normal is perpendicular to both edges
    assert(n0 * ux + n1 * uy + n2 * uz == 0) by (nonlinear_arith)
        requires
            n0 == uy * vz - uz * vy,
            n1 == uz * vx - ux * vz,
            n2 == ux * vy - uy * vx,
    ;
    assert(n0 * vx + n1 * vy + n2 * vz == 0) by (nonlinear_arith)
        requires
            n0 == uy * vz - uz * vy,
            n1 == uz * vx - ux * vz,
            n2 == ux * vy - uy * vx,
    ;
    lemma_spread(n0, at.v, ux, at.w, vx);
    lemma_spread(n1, at.v, uy, at.w, vy);
    lemma_spread(n2, at.v, uz, at.w, vz);
    assert(at.v * (n0 * ux + n1 * uy + n2 * uz) == at.v * (n0 * ux) + at.v * (n1 * uy) + at.v * (n2
        * uz)) by (nonlinear_arith);
    assert(at.w * (n0 * vx + n1 * vy + n2 * vz) == at.w * (n0 * vx) + at.w * (n1 * vy) + at.w * (n2
        * vz)) by (nonlinear_arith);
    assert(at.v * (n0 * ux + n1 * uy + n2 * uz) == 0) by (nonlinear_arith)
        requires
            n0 * ux + n1 * uy + n2 * uz == 0,
    ;
    assert(at.w * (n0 * vx + n1 * vy + n2 * vz) == 0) by (nonlinear_arith)
        requires
            n0 * vx + n1 * vy + n2 * vz == 0,
    ;
}

/// A product with 1 or -1.
proof fn lemma_times_sign(sign: int, x: int)
    requires
        sign == 1 || sign == -1,
    ensures
        sign * x == (if sign == 1 { x } else { -x }),
{
    assert(sign * x == (if sign == 1 { x } else { -x })) by (nonlinear_arith)
        requires
            sign == 1 || sign == -1,
    ;
}

/// Turning a normal around turns the sign of the rise.
proof fn lemma_negated_rise(m0: int, m2: int, x: int, z: int)
    ensures
        -((-m0) * x + (-m2) * z) == m0 * x + m2 * z,
{
    assert(-((-m0) * x + (-m2) * z) == m0 * x + m2 * z) by (nonlinear_arith);
}

/// Conservative rasterization, in height: a point that the triangle has
/// over a rectangle lies within the range of heights computed for the
/// rectangle.
pub proof fn lemma_point_within_height_range(
    tri: [IVec3; 3],
    at: Weights,
    x0: int,
    z0: int,
    x1: int,
    z1: int,
)
    requires
        at.valid(),
        at.over(tri, x0, z0, x1, z1),
    ensures
        height_range(tri, x0, z0, x1, z1).0 * at.total() <= at.y_of(tri),
        at.y_of(tri) <= height_range(tri, x0, z0, x1, z1).1 * at.total(),
{
    let n = spec_cross(tri[0], tri[1], tri[2]);
    let t = at.total();
    let px = at.x_of(tri);
    let py = at.y_of(tri);
    let pz = at.z_of(tri);
    let bottom = spec_min3(tri[0].y as int, tri[1].y as int, tri[2].y as int);
    let top = spec_max3(tri[0].y as int, tri[1].y as int, tri[2].y as int);
    lemma_weighted_between(
        at.u,
        at.v,
        at.w,
        tri[0].y as int,
        tri[1].y as int,
        tri[2].y as int,
        bottom,
        top,
    );
    if n.1 != 0 {
        let d = if n.1 > 0 { n.1 } else { -n.1 };
        let sign: int = if n.1 > 0 { 1 } else { -1 };
        let a = tri[0];
        let r00 = sign * rise(n, a, x0, z0);
        let r01 = sign * rise(n, a, x0, z1);
        let r10 = sign * rise(n, a, x1, z0);
        let r11 = sign * rise(n, a, x1, z1);
        let least = spec_min4(r00, r01, r10, r11);
        let greatest = spec_max4(r00, r01, r10, r11);
        let down = floor_div(least, d);
        let up = ceil_div(greatest, d);
        lemma_point_in_plane(tri, at);
        let tx = px - a.x * t;
        let ty = py - a.y * t;
        let tz = pz - a.z * t;
        if n.1 > 0 {
            lemma_times_sign(sign, rise(n, a, x0, z0));
            lemma_times_sign(sign, rise(n, a, x0, z1));
            lemma_times_sign(sign, rise(n, a, x1, z0));
            lemma_times_sign(sign, rise(n, a, x1, z1));
            lemma_plane_over_rectangle(
                n.0,
                d,
                n.2,
                a.x as int,
                a.y as int,
                a.z as int,
                px,
                py,
                pz,
                t,
                x0,
                z0,
                x1,
                z1,
                least,
                greatest,
            );
        } else {
            // the same plane with the normal turned upwards
            lemma_negated_rise(n.0, n.2, x0 - a.x, z0 - a.z);
            lemma_negated_rise(n.0, n.2, x0 - a.x, z1 - a.z);
            lemma_negated_rise(n.0, n.2, x1 - a.x, z0 - a.z);
            lemma_negated_rise(n.0, n.2, x1 - a.x, z1 - a.z);
            lemma_negated_rise(n.0, n.2, tx, tz);
            lemma_times_sign(sign, rise(n, a, x0, z0));
            lemma_times_sign(sign, rise(n, a, x0, z1));
            lemma_times_sign(sign, rise(n, a, x1, z0));
            lemma_times_sign(sign, rise(n, a, x1, z1));
            assert(d * ty == -(n.1 * ty)) by (nonlinear_arith)
                requires
                    d == -n.1,
            ;
            lemma_plane_over_rectangle(
                -n.0,
                d,
                -n.2,
                a.x as int,
                a.y as int,
                a.z as int,
                px,
                py,
                pz,
                t,
                x0,
                z0,
                x1,
                z1,
                least,
                greatest,
            );
        }
        assert((a.y + down) * t <= py);
        assert(py <= (a.y + up) * t);
        let lo = clamp(a.y + down, bottom, top);
        let hi = clamp(a.y + up, lo, top);
        assert((lo, hi) == height_range(tri, x0, z0, x1, z1));
        if a.y + down > top {
            // no point of the triangle lies that high
            assert(top * t < (a.y + down) * t) by (nonlinear_arith)
                requires
                    top < a.y + down,
                    t > 0,
            ;
        }
        assert(lo * t <= py);
        if a.y + up < lo {
            assert((a.y + up) * t < lo * t) by (nonlinear_arith)
                requires
                    a.y + up < lo,
                    t > 0,
            ;
        }
        assert(py <= hi * t);
    }
}

} // verus!
