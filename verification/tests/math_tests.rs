use recast::math::{dir_offset_x, dir_offset_z, I64Vec3, COORD_MAX};
use recast::trimesh::{cross, max3, min3, TriangleIndices, TriangleVertices};
use recast::{Aabb2d, Aabb3d, IVec2, IVec3};

#[test]
fn aabb3d_new_is_center_plus_minus_half_size() {
    let b = Aabb3d::new(IVec3::new(10, -4, 2), IVec3::new(3, 0, 7));
    assert_eq!(b.min, IVec3::new(7, -4, -5));
    assert_eq!(b.max, IVec3::new(13, -4, 9));
}

#[test]
fn aabb3d_from_verts_of_nothing_is_none() {
    let none: [IVec3; 0] = [];
    assert_eq!(Aabb3d::from_verts(&none), None);
}

#[test]
fn aabb3d_from_verts_is_tight() {
    let verts = [
        IVec3::new(1, 5, -3),
        IVec3::new(-2, 7, 0),
        IVec3::new(4, -1, 9),
        IVec3::new(0, 0, 0),
    ];
    let b = Aabb3d::from_verts(&verts).unwrap();
    assert_eq!(b.min, IVec3::new(-2, -1, -3));
    assert_eq!(b.max, IVec3::new(4, 7, 9));
    for v in verts.iter() {
        assert!(b.min.x <= v.x && v.x <= b.max.x);
        assert!(b.min.y <= v.y && v.y <= b.max.y);
        assert!(b.min.z <= v.z && v.z <= b.max.z);
    }
    assert!(verts.iter().any(|v| v.x == b.min.x));
    assert!(verts.iter().any(|v| v.x == b.max.x));
    assert!(verts.iter().any(|v| v.y == b.min.y));
    assert!(verts.iter().any(|v| v.y == b.max.y));
    assert!(verts.iter().any(|v| v.z == b.min.z));
    assert!(verts.iter().any(|v| v.z == b.max.z));
}

#[test]
fn aabb3d_from_single_vertex_is_a_point() {
    let b = Aabb3d::from_verts(&[IVec3::new(3, 4, 5)]).unwrap();
    assert_eq!(b.min, IVec3::new(3, 4, 5));
    assert_eq!(b.max, IVec3::new(3, 4, 5));
}

#[test]
fn aabb3d_intersects_is_symmetric_and_closed() {
    let a = Aabb3d {
        min: IVec3::new(0, 0, 0),
        max: IVec3::new(2, 2, 2),
    };
    let touching = Aabb3d {
        min: IVec3::new(2, 2, 2),
        max: IVec3::new(3, 3, 3),
    };
    let apart = Aabb3d {
        min: IVec3::new(3, 0, 0),
        max: IVec3::new(4, 2, 2),
    };
    let inside = Aabb3d {
        min: IVec3::new(1, 1, 1),
        max: IVec3::new(1, 1, 1),
    };
    assert!(a.intersects(&touching));
    assert!(touching.intersects(&a));
    assert!(!a.intersects(&apart));
    assert!(!apart.intersects(&a));
    assert!(a.intersects(&inside));
    assert!(inside.intersects(&a));
    assert!(a.intersects(&a));
}

#[test]
fn aabb3d_apart_on_one_axis_only_does_not_intersect() {
    let a = Aabb3d {
        min: IVec3::new(0, 0, 0),
        max: IVec3::new(2, 2, 2),
    };
    let above = Aabb3d {
        min: IVec3::new(0, 3, 0),
        max: IVec3::new(2, 4, 2),
    };
    let behind = Aabb3d {
        min: IVec3::new(0, 0, -5),
        max: IVec3::new(2, 2, -1),
    };
    assert!(!a.intersects(&above));
    assert!(!above.intersects(&a));
    assert!(!a.intersects(&behind));
    assert!(!behind.intersects(&a));
}

#[test]
fn aabb2d_from_verts_and_extend_y() {
    let none: [IVec2; 0] = [];
    assert_eq!(Aabb2d::from_verts(&none), None);
    let b = Aabb2d::from_verts(&[IVec2::new(3, -1), IVec2::new(-4, 6), IVec2::new(0, 0)]).unwrap();
    assert_eq!(b.min, IVec2::new(-4, -1));
    assert_eq!(b.max, IVec2::new(3, 6));
    let lifted = b.extend_y(-7, 11);
    assert_eq!(lifted.min, IVec3::new(-4, -7, -1));
    assert_eq!(lifted.max, IVec3::new(3, 11, 6));
    assert_eq!(lifted.min.y, -7);
    assert_eq!(lifted.max.y, 11);
}

#[test]
fn direction_offsets_follow_the_compass_table() {
    let xs: Vec<i8> = (0u8..4).map(dir_offset_x).collect();
    let zs: Vec<i8> = (0u8..4).map(dir_offset_z).collect();
    assert_eq!(xs, vec![-1, 0, 1, 0]);
    assert_eq!(zs, vec![0, 1, 0, -1]);
}

#[test]
fn direction_offsets_take_the_direction_modulo_four() {
    for d in 0u8..=255 {
        assert_eq!(dir_offset_x(d), dir_offset_x(d % 4));
        assert_eq!(dir_offset_z(d), dir_offset_z(d % 4));
    }
    assert_eq!(dir_offset_x(6), 1);
    assert_eq!(dir_offset_z(7), -1);
}

#[test]
fn normal_is_the_cross_product_of_two_edges() {
    let vertices = [
        IVec3::new(0, 0, 0),
        IVec3::new(0, 0, 2),
        IVec3::new(2, 0, 0),
        IVec3::new(0, -1, 1),
        IVec3::new(1, 0, 0),
    ];
    let up: [u32; 3] = [0, 1, 2];
    assert_eq!(up.normal(&vertices), I64Vec3 { x: 0, y: 4, z: 0 });
    let down: [u32; 3] = [0, 2, 1];
    assert_eq!(down.normal(&vertices), I64Vec3 { x: 0, y: -4, z: 0 });
    let slope: [u32; 3] = [0, 3, 4];
    assert_eq!(slope.normal(&vertices), I64Vec3 { x: 0, y: 1, z: 1 });
}

#[test]
fn normal_of_a_degenerate_triangle_is_zero() {
    let vertices = [IVec3::new(1, 1, 1), IVec3::new(2, 2, 2), IVec3::new(5, 5, 5)];
    let line: [u32; 3] = [0, 1, 2];
    assert_eq!(line.normal(&vertices), I64Vec3 { x: 0, y: 0, z: 0 });
    let point: [u32; 3] = [1, 1, 1];
    assert_eq!(point.normal(&vertices), I64Vec3 { x: 0, y: 0, z: 0 });
}

#[test]
fn cross_at_the_coordinate_limit_does_not_overflow() {
    let m = COORD_MAX;
    let n = cross(IVec3::new(-m, -m, -m), IVec3::new(m, m, -m), IVec3::new(m, -m, m));
    let e = 2 * (m as i64);
    assert_eq!(n, I64Vec3 { x: e * e, y: -(e * e), z: -(e * e) });
}

#[test]
fn triangle_aabb_is_the_hull_of_its_corners() {
    let tri = [IVec3::new(1, 5, -3), IVec3::new(-2, 7, 0), IVec3::new(4, -1, 9)];
    let b = tri.aabb();
    assert_eq!(b.min, IVec3::new(-2, -1, -3));
    assert_eq!(b.max, IVec3::new(4, 7, 9));
    assert_eq!(Some(b), Aabb3d::from_verts(&tri));
}

#[test]
fn min3_and_max3() {
    assert_eq!(min3(3, 1, 2), 1);
    assert_eq!(min3(1, 1, 5), 1);
    assert_eq!(min3(7, 8, -9), -9);
    assert_eq!(max3(3, 1, 2), 3);
    assert_eq!(max3(1, 9, 5), 9);
    assert_eq!(max3(7, 8, 19), 19);
}

#[test]
fn aabb3d_default_is_the_origin() {
    let b = Aabb3d::default();
    assert_eq!(b.min, IVec3::new(0, 0, 0));
    assert_eq!(b.max, IVec3::new(0, 0, 0));
}
