//! Fixed-point vectors, axis-aligned boxes and the grid's four directions.

use vstd::prelude::*;

verus! {

/// Largest magnitude of a mesh coordinate. Within it the cross product of
/// two edges fits 64 bits and its squared length fits 128.
pub const COORD_MAX: i32 = 0x10_0000;

/// A point or an offset in space, in fixed-point units.
#[derive(Clone, Copy, PartialEq, Eq, Debug, Structural)]
pub struct IVec3 {
    pub x: i32,
    pub y: i32,
    pub z: i32,
}

/// A point of the horizontal plane. Its `y` is the `z` of space.
#[derive(Clone, Copy, PartialEq, Eq, Debug, Structural)]
pub struct IVec2 {
    pub x: i32,
    pub y: i32,
}

/// A vector with 64-bit components, wide enough for a cross product of
/// mesh edges.
#[derive(Clone, Copy, PartialEq, Eq, Debug, Structural)]
pub struct I64Vec3 {
    pub x: i64,
    pub y: i64,
    pub z: i64,
}

impl IVec3 {
    pub fn new(x: i32, y: i32, z: i32) -> (v: Self)
        ensures
            v == (IVec3 { x, y, z }),
    {
        IVec3 { x, y, z }
    }

    /// Whether every coordinate lies within [`COORD_MAX`] of zero.
    pub open spec fn in_range(self) -> bool {
        &&& -COORD_MAX <= self.x <= COORD_MAX
        &&& -COORD_MAX <= self.y <= COORD_MAX
        &&& -COORD_MAX <= self.z <= COORD_MAX
    }

    /// Runtime test of [`IVec3::in_range`].
    pub fn is_in_range(&self) -> (r: bool)
        ensures
            r == self.in_range(),
    {
        -COORD_MAX <= self.x && self.x <= COORD_MAX && -COORD_MAX <= self.y && self.y <= COORD_MAX
            && -COORD_MAX <= self.z && self.z <= COORD_MAX
    }
}

impl IVec2 {
    pub fn new(x: i32, y: i32) -> (v: Self)
        ensures
            v == (IVec2 { x, y }),
    {
        IVec2 { x, y }
    }
}

/// A 3D axis-aligned bounding box.
#[derive(Clone, Copy, PartialEq, Eq, Debug, Structural)]
pub struct Aabb3d {
    /// The minimum point of the box.
    pub min: IVec3,
    /// The maximum point of the box.
    pub max: IVec3,
}

impl Aabb3d {
    /// Whether the point lies in the box, faces included.
    pub open spec fn contains(self, p: IVec3) -> bool {
        &&& self.min.x <= p.x <= self.max.x
        &&& self.min.y <= p.y <= self.max.y
        &&& self.min.z <= p.z <= self.max.z
    }

    /// Whether the box holds every point and, on each axis, some point lies
    /// on its lower face and some point on its upper face.
    pub open spec fn is_hull_of(self, points: Seq<IVec3>) -> bool {
        &&& forall|i: int| 0 <= i < points.len() ==> self.contains(#[trigger] points[i])
        &&& exists|i: int| 0 <= i < points.len() && (#[trigger] points[i]).x == self.min.x
        &&& exists|i: int| 0 <= i < points.len() && (#[trigger] points[i]).y == self.min.y
        &&& exists|i: int| 0 <= i < points.len() && (#[trigger] points[i]).z == self.min.z
        &&& exists|i: int| 0 <= i < points.len() && (#[trigger] points[i]).x == self.max.x
        &&& exists|i: int| 0 <= i < points.len() && (#[trigger] points[i]).y == self.max.y
        &&& exists|i: int| 0 <= i < points.len() && (#[trigger] points[i]).z == self.max.z
    }

    /// Whether the two boxes overlap or touch on every axis.
    pub open spec fn overlaps(self, other: Aabb3d) -> bool {
        &&& self.min.x <= other.max.x && self.max.x >= other.min.x
        &&& self.min.y <= other.max.y && self.max.y >= other.min.y
        &&& self.min.z <= other.max.z && self.max.z >= other.min.z
    }

    /// The box around `center` that reaches `half_size` to either side.
    pub fn new(center: IVec3, half_size: IVec3) -> (b: Self)
        requires
            half_size.x >= 0 && half_size.y >= 0 && half_size.z >= 0,
            i32::MIN <= center.x - half_size.x && center.x + half_size.x <= i32::MAX,
            i32::MIN <= center.y - half_size.y && center.y + half_size.y <= i32::MAX,
            i32::MIN <= center.z - half_size.z && center.z + half_size.z <= i32::MAX,
        ensures
            b.min.x == center.x - half_size.x && b.max.x == center.x + half_size.x,
            b.min.y == center.y - half_size.y && b.max.y == center.y + half_size.y,
            b.min.z == center.z - half_size.z && b.max.z == center.z + half_size.z,
    {
        Aabb3d {
            min: IVec3 {
                x: center.x - half_size.x,
                y: center.y - half_size.y,
                z: center.z - half_size.z,
            },
            max: IVec3 {
                x: center.x + half_size.x,
                y: center.y + half_size.y,
                z: center.z + half_size.z,
            },
        }
    }

    /// The smallest box that holds every vertex, or `None` for no vertices.
    pub fn from_verts(verts: &[IVec3]) -> (r: Option<Self>)
        ensures
            r.is_none() <==> verts@.len() == 0,
            r matches Some(b) ==> b.is_hull_of(verts@),
    {
        if verts.len() == 0 {
            return None;
        }
        let mut min = verts[0];
        let mut max = verts[0];
        let ghost mut wx0: int = 0;
        let ghost mut wy0: int = 0;
        let ghost mut wz0: int = 0;
        let ghost mut wx1: int = 0;
        let ghost mut wy1: int = 0;
        let ghost mut wz1: int = 0;
        let mut i: usize = 1;
        while i < verts.len()
            invariant
                1 <= i <= verts.len(),
                forall|k: int| 0 <= k < i ==> (Aabb3d { min, max }).contains(#[trigger] verts@[k]),
                0 <= wx0 < i && verts@[wx0].x == min.x,
                0 <= wy0 < i && verts@[wy0].y == min.y,
                0 <= wz0 < i && verts@[wz0].z == min.z,
                0 <= wx1 < i && verts@[wx1].x == max.x,
                0 <= wy1 < i && verts@[wy1].y == max.y,
                0 <= wz1 < i && verts@[wz1].z == max.z,
            decreases verts.len() - i,
        {
            let v = verts[i];
            if v.x < min.x {
                min.x = v.x;
                proof { wx0 = i as int; }
            }
            if v.y < min.y {
                min.y = v.y;
                proof { wy0 = i as int; }
            }
            if v.z < min.z {
                min.z = v.z;
                proof { wz0 = i as int; }
            }
            if v.x > max.x {
                max.x = v.x;
                proof { wx1 = i as int; }
            }
            if v.y > max.y {
                max.y = v.y;
                proof { wy1 = i as int; }
            }
            if v.z > max.z {
                max.z = v.z;
                proof { wz1 = i as int; }
            }
            i += 1;
        }
        Some(Aabb3d { min, max })
    }

    /// Checks if this box intersects with another box.
    pub fn intersects(&self, other: &Aabb3d) -> (r: bool)
        ensures
            r == self.overlaps(*other),
    {
        self.min.x <= other.max.x && self.max.x >= other.min.x && self.min.y <= other.max.y
            && self.max.y >= other.min.y && self.min.z <= other.max.z && self.max.z >= other.min.z
    }

    /// Intersection does not depend on which box is asked.
    pub proof fn lemma_intersects_symmetric(a: Aabb3d, b: Aabb3d)
        ensures
            a.overlaps(b) == b.overlaps(a),
    {
    }
}

impl Default for Aabb3d {
    /// The box that holds the origin and nothing else.
    fn default() -> (b: Self)
        ensures
            b.min == (IVec3 { x: 0, y: 0, z: 0 }),
            b.max == (IVec3 { x: 0, y: 0, z: 0 }),
    {
        Aabb3d { min: IVec3 { x: 0, y: 0, z: 0 }, max: IVec3 { x: 0, y: 0, z: 0 } }
    }
}

/// A 2D axis-aligned bounding box of the horizontal plane.
#[derive(Clone, Copy, PartialEq, Eq, Debug, Structural)]
pub struct Aabb2d {
    /// The minimum point of the box.
    pub min: IVec2,
    /// The maximum point of the box.
    pub max: IVec2,
}

impl Aabb2d {
    /// Whether the point lies in the box, edges included.
    pub open spec fn contains(self, p: IVec2) -> bool {
        &&& self.min.x <= p.x <= self.max.x
        &&& self.min.y <= p.y <= self.max.y
    }

    /// Whether the box holds every point and, on each axis, some point lies
    /// on its lower edge and some point on its upper edge.
    pub open spec fn is_hull_of(self, points: Seq<IVec2>) -> bool {
        &&& forall|i: int| 0 <= i < points.len() ==> self.contains(#[trigger] points[i])
        &&& exists|i: int| 0 <= i < points.len() && (#[trigger] points[i]).x == self.min.x
        &&& exists|i: int| 0 <= i < points.len() && (#[trigger] points[i]).y == self.min.y
        &&& exists|i: int| 0 <= i < points.len() && (#[trigger] points[i]).x == self.max.x
        &&& exists|i: int| 0 <= i < points.len() && (#[trigger] points[i]).y == self.max.y
    }

    /// The smallest box that holds every point, or `None` for no points.
    pub fn from_verts(verts: &[IVec2]) -> (r: Option<Self>)
        ensures
            r.is_none() <==> verts@.len() == 0,
            r matches Some(b) ==> b.is_hull_of(verts@),
    {
        if verts.len() == 0 {
            return None;
        }
        let mut min = verts[0];
        let mut max = verts[0];
        let ghost mut wx0: int = 0;
        let ghost mut wy0: int = 0;
        let ghost mut wx1: int = 0;
        let ghost mut wy1: int = 0;
        let mut i: usize = 1;
        while i < verts.len()
            invariant
                1 <= i <= verts.len(),
                forall|k: int| 0 <= k < i ==> (Aabb2d { min, max }).contains(#[trigger] verts@[k]),
                0 <= wx0 < i && verts@[wx0].x == min.x,
                0 <= wy0 < i && verts@[wy0].y == min.y,
                0 <= wx1 < i && verts@[wx1].x == max.x,
                0 <= wy1 < i && verts@[wy1].y == max.y,
            decreases verts.len() - i,
        {
            let v = verts[i];
            if v.x < min.x {
                min.x = v.x;
                proof { wx0 = i as int; }
            }
            if v.y < min.y {
                min.y = v.y;
                proof { wy0 = i as int; }
            }
            if v.x > max.x {
                max.x = v.x;
                proof { wx1 = i as int; }
            }
            if v.y > max.y {
                max.y = v.y;
                proof { wy1 = i as int; }
            }
            i += 1;
        }
        Some(Aabb2d { min, max })
    }

    /// Lifts the box into space: its coordinates become X and Z, and
    /// `y_min` and `y_max` the lower and upper Y.
    pub fn extend_y(self, y_min: i32, y_max: i32) -> (b: Aabb3d)
        ensures
            b.min == (IVec3 { x: self.min.x, y: y_min, z: self.min.y }),
            b.max == (IVec3 { x: self.max.x, y: y_max, z: self.max.y }),
    {
        Aabb3d {
            min: IVec3 { x: self.min.x, y: y_min, z: self.min.y },
            max: IVec3 { x: self.max.x, y: y_max, z: self.max.y },
        }
    }
}

/// The grid step along X for a direction, taken modulo 4: west, north,
/// east, south give -1, 0, 1, 0.
pub open spec fn spec_dir_offset_x(direction: int) -> int {
    if direction % 4 == 0 {
        -1
    } else if direction % 4 == 2 {
        1
    } else {
        0
    }
}

/// The grid step along Z for a direction, taken modulo 4: west, north,
/// east, south give 0, 1, 0, -1.
pub open spec fn spec_dir_offset_z(direction: int) -> int {
    if direction % 4 == 1 {
        1
    } else if direction % 4 == 3 {
        -1
    } else {
        0
    }
}

/// Gets the standard width (x-axis) offset for the specified direction.
pub fn dir_offset_x(direction: u8) -> (r: i8)
    ensures
        r == spec_dir_offset_x(direction as int),
{
    let d: u8 = direction % 4;
    if d == 0 {
        -1
    } else if d == 2 {
        1
    } else {
        0
    }
}

/// Gets the standard height (z-axis) offset for the specified direction.
pub fn dir_offset_z(direction: u8) -> (r: i8)
    ensures
        r == spec_dir_offset_z(direction as int),
{
    let d: u8 = direction % 4;
    if d == 1 {
        1
    } else if d == 3 {
        -1
    } else {
        0
    }
}

/// The four directions step to four different neighbours, each one cell away.
pub proof fn lemma_dir_offsets_are_unit_steps(direction: int)
    ensures
        spec_dir_offset_x(direction) == spec_dir_offset_x(direction % 4),
        spec_dir_offset_z(direction) == spec_dir_offset_z(direction % 4),
        spec_dir_offset_x(direction) * spec_dir_offset_x(direction) + spec_dir_offset_z(direction)
            * spec_dir_offset_z(direction) == 1,
{
}

} // verus!
