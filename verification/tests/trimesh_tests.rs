use recast::trimesh::{is_slope_walkable, COS_ONE};
use recast::math::I64Vec3;
use recast::{AreaType, IVec3, TriMesh};

fn mesh_of_three() -> TriMesh {
    // triangle 0 is flat and faces up, triangle 1 slopes at 45 degrees,
    // triangle 2 is flat and faces down
    TriMesh {
        vertices: vec![
            IVec3::new(0, 0, 0),
            IVec3::new(0, 0, 2),
            IVec3::new(2, 0, 0),
            IVec3::new(0, -1, 1),
            IVec3::new(1, 0, 0),
        ],
        indices: vec![[0, 1, 2], [0, 3, 4], [0, 2, 1]],
        area_types: vec![AreaType::null(), AreaType::null(), AreaType(5)],
    }
}

#[test]
fn mesh_validity() {
    assert!(mesh_of_three().is_valid());
    let mut short = mesh_of_three();
    short.area_types.pop();
    assert!(!short.is_valid());
    let mut dangling = mesh_of_three();
    dangling.indices[1] = [0, 3, 5];
    assert!(!dangling.is_valid());
    let mut far = mesh_of_three();
    far.vertices[4] = IVec3::new(0x10_0001, 0, 0);
    assert!(!far.is_valid());
    let mut unused_far = mesh_of_three();
    unused_far.vertices.push(IVec3::new(0x10_0001, 0, 0));
    assert!(unused_far.is_valid());
}

#[test]
fn slope_just_under_45_degrees_threshold_is_walkable() {
    // cos(45 deg) * 65536 = 46340.95: the normal (0, 1, 1) has a Y
    // component of 0.70710678, above 46340 / 65536 and below 46341 / 65536
    let n = I64Vec3 { x: 0, y: 1, z: 1 };
    assert!(is_slope_walkable(n, 46340));
    assert!(!is_slope_walkable(n, 46341));
}

#[test]
fn flat_triangle_needs_a_threshold_below_one() {
    let up = I64Vec3 { x: 0, y: 4, z: 0 };
    assert!(!is_slope_walkable(up, COS_ONE));
    assert!(is_slope_walkable(up, COS_ONE - 1));
    assert!(is_slope_walkable(up, 0));
    assert!(!is_slope_walkable(up, COS_ONE + 5));
}

#[test]
fn downward_and_zero_normals() {
    let down = I64Vec3 { x: 0, y: -4, z: 0 };
    let zero = I64Vec3 { x: 0, y: 0, z: 0 };
    let wall = I64Vec3 { x: 3, y: 0, z: 0 };
    assert!(!is_slope_walkable(down, 0));
    assert!(!is_slope_walkable(down, -COS_ONE));
    assert!(is_slope_walkable(down, -COS_ONE - 1));
    assert!(!is_slope_walkable(zero, 0));
    assert!(!is_slope_walkable(zero, COS_ONE));
    assert!(is_slope_walkable(zero, -1));
    assert!(!is_slope_walkable(wall, 0));
    assert!(is_slope_walkable(wall, -1));
}

#[test]
fn negative_threshold_compares_squares_the_other_way() {
    // the normal (0, -1, 1) has a Y component of -0.70710678
    let n = I64Vec3 { x: 0, y: -1, z: 1 };
    assert!(is_slope_walkable(n, -46341));
    assert!(!is_slope_walkable(n, -46340));
}

#[test]
fn marking_sets_default_walkable_and_leaves_the_rest() {
    let mut mesh = mesh_of_three();
    mesh.mark_walkable_triangles(46340);
    assert_eq!(
        mesh.area_types,
        vec![AreaType::default_walkable(), AreaType::default_walkable(), AreaType(5)]
    );
    assert_eq!(mesh.vertices, mesh_of_three().vertices);
    assert_eq!(mesh.indices, mesh_of_three().indices);
}

#[test]
fn marking_with_threshold_angle_zero_marks_nothing() {
    let mut mesh = mesh_of_three();
    mesh.mark_walkable_triangles(COS_ONE);
    assert_eq!(mesh.area_types, mesh_of_three().area_types);
}

#[test]
fn marking_never_clears_a_tag() {
    let mut mesh = mesh_of_three();
    mesh.area_types = vec![AreaType(9), AreaType(9), AreaType(9)];
    mesh.mark_walkable_triangles(60000);
    assert_eq!(
        mesh.area_types,
        vec![AreaType::default_walkable(), AreaType(9), AreaType(9)]
    );
}

#[test]
fn stricter_second_pass_marks_nothing_new() {
    let mut once = mesh_of_three();
    once.mark_walkable_triangles(46341);
    assert_eq!(
        once.area_types,
        vec![AreaType::default_walkable(), AreaType::null(), AreaType(5)]
    );
    let mut twice = mesh_of_three();
    twice.mark_walkable_triangles(46341);
    twice.mark_walkable_triangles(60000);
    assert_eq!(twice.area_types, once.area_types);
    twice.mark_walkable_triangles(COS_ONE);
    assert_eq!(twice.area_types, once.area_types);
}

#[test]
fn laxer_second_pass_may_mark_more() {
    let mut mesh = mesh_of_three();
    mesh.mark_walkable_triangles(60000);
    assert_eq!(mesh.area_types[1], AreaType::null());
    mesh.mark_walkable_triangles(46340);
    assert_eq!(mesh.area_types[1], AreaType::default_walkable());
}
