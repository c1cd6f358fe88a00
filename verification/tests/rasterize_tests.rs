use recast::footprint::{height_range_of, is_touched};
use recast::trimesh::{cross, COS_ONE};
use recast::{Aabb3d, AreaType, Heightfield, IVec3, RasterizationError, SpanData, TriMesh};

fn field(width: u32, depth: u32, origin: IVec3, cell_size: i32, cell_height: i32) -> Heightfield {
    let bounds = Aabb3d {
        min: origin,
        max: IVec3::new(
            origin.x + width as i32 * cell_size,
            origin.y + 100 * cell_height,
            origin.z + depth as i32 * cell_size,
        ),
    };
    Heightfield::new(width, depth, bounds, cell_size, cell_height).unwrap()
}

fn sd(min: u16, max: u16, area: u8) -> SpanData {
    SpanData { min, max, area }
}

fn all_columns(hf: &Heightfield) -> Vec<Vec<SpanData>> {
    let mut out = Vec::new();
    for z in 0..hf.depth() {
        for x in 0..hf.width() {
            out.push(hf.column_spans(x, z));
        }
    }
    out
}

/// A square of 2 by 2 cells at height 0, as two triangles that face up.
fn floor_square(side: i32, y: i32) -> (Vec<IVec3>, Vec<[u32; 3]>) {
    (
        vec![
            IVec3::new(0, y, 0),
            IVec3::new(0, y, side),
            IVec3::new(side, y, 0),
            IVec3::new(side, y, side),
        ],
        vec![[0, 1, 2], [2, 1, 3]],
    )
}

#[test]
fn touching_is_decided_on_closed_cells() {
    // seen from above: the triangle (0,0) (0,1) (3,0)
    let tri = [IVec3::new(0, 0, 0), IVec3::new(0, 0, 1), IVec3::new(3, 3, 0)];
    assert!(is_touched(&tri, 0, 0, 1, 1));
    assert!(is_touched(&tri, 2, 0, 3, 1));
    assert!(!is_touched(&tri, 1, 1, 2, 2));
    assert!(!is_touched(&tri, 2, 1, 3, 2));
    // the corner (0, 1) of the triangle touches the cell above it
    assert!(is_touched(&tri, 0, 1, 1, 2));
    assert!(is_touched(&tri, 3, 0, 4, 1));
    assert!(!is_touched(&tri, 4, 0, 5, 1));
    assert!(!is_touched(&tri, -2, -2, -1, -1));
}

#[test]
fn height_range_follows_the_plane_over_the_cell() {
    // the plane y = x
    let tri = [IVec3::new(0, 0, 0), IVec3::new(0, 0, 1), IVec3::new(3, 3, 0)];
    let n = cross(tri[0], tri[1], tri[2]);
    assert_eq!(height_range_of(&tri, n, 0, 0, 1, 1), (0, 1));
    assert_eq!(height_range_of(&tri, n, 1, 0, 2, 1), (1, 2));
    assert_eq!(height_range_of(&tri, n, 2, 0, 3, 1), (2, 3));
    // beyond the triangle the range is cut to the triangle's own heights
    assert_eq!(height_range_of(&tri, n, 5, 0, 9, 1), (3, 3));
    assert_eq!(height_range_of(&tri, n, -4, 0, 1, 1), (0, 1));
}

#[test]
fn height_range_rounds_outwards() {
    // the plane y = x / 3
    let tri = [IVec3::new(0, 0, 0), IVec3::new(0, 0, 3), IVec3::new(9, 3, 0)];
    let n = cross(tri[0], tri[1], tri[2]);
    assert_eq!(height_range_of(&tri, n, 1, 0, 2, 1), (0, 1));
    assert_eq!(height_range_of(&tri, n, 4, 0, 5, 1), (1, 2));
    assert_eq!(height_range_of(&tri, n, 3, 0, 6, 1), (1, 2));
    // the same plane, facing down
    let flipped = [tri[0], tri[2], tri[1]];
    let m = cross(flipped[0], flipped[1], flipped[2]);
    assert!(m.y < 0);
    assert_eq!(height_range_of(&flipped, m, 1, 0, 2, 1), (0, 1));
    assert_eq!(height_range_of(&flipped, m, 4, 0, 5, 1), (1, 2));
}

#[test]
fn height_range_of_a_vertical_triangle_is_its_own() {
    let tri = [IVec3::new(0, 2, 0), IVec3::new(4, 2, 0), IVec3::new(4, 9, 0)];
    let n = cross(tri[0], tri[1], tri[2]);
    assert_eq!(n.y, 0);
    assert_eq!(height_range_of(&tri, n, 0, 0, 1, 1), (2, 9));
}

#[test]
fn ramp_leaves_one_step_in_each_column() {
    let mut hf = field(3, 2, IVec3::new(0, 0, 0), 1, 1);
    let tri = [IVec3::new(0, 0, 0), IVec3::new(0, 0, 1), IVec3::new(3, 3, 0)];
    assert_eq!(hf.rasterize_triangle(tri, AreaType(5), 0), Ok(()));
    assert_eq!(
        all_columns(&hf),
        vec![
            vec![sd(0, 1, 5)],
            vec![sd(1, 2, 5)],
            vec![sd(2, 3, 5)],
            vec![sd(0, 1, 5)],
            vec![],
            vec![]
        ]
    );
    assert_eq!(hf.span_count(), 4);
}

#[test]
fn heights_are_measured_from_the_origin_in_voxels() {
    let mut hf = field(1, 1, IVec3::new(10, -1, 20), 4, 2);
    let flat = [IVec3::new(10, 2, 20), IVec3::new(10, 2, 24), IVec3::new(14, 2, 20)];
    hf.rasterize_triangle(flat, AreaType(1), 0).unwrap();
    // 3 units above the origin: from voxel 1 to the end of voxel 1
    assert_eq!(hf.column_spans(0, 0), vec![sd(1, 2, 1)]);
    let mut even = field(1, 1, IVec3::new(10, -1, 20), 4, 2);
    let on_border = [IVec3::new(10, 3, 20), IVec3::new(10, 3, 24), IVec3::new(14, 3, 20)];
    even.rasterize_triangle(on_border, AreaType(1), 0).unwrap();
    // exactly between voxel 1 and voxel 2: one voxel high at least
    assert_eq!(even.column_spans(0, 0), vec![sd(2, 3, 1)]);
}

#[test]
fn triangle_beyond_the_grid_is_refused() {
    let mut hf = field(2, 2, IVec3::new(0, 0, 0), 1, 1);
    let inside = [IVec3::new(0, 0, 0), IVec3::new(0, 0, 2), IVec3::new(2, 0, 0)];
    hf.rasterize_triangle(inside, AreaType(1), 1).unwrap();
    let before = all_columns(&hf);
    for tri in [
        [IVec3::new(0, 0, 0), IVec3::new(0, 0, 2), IVec3::new(3, 0, 0)],
        [IVec3::new(-1, 0, 0), IVec3::new(0, 0, 2), IVec3::new(2, 0, 0)],
        [IVec3::new(0, 0, 0), IVec3::new(0, 0, 3), IVec3::new(2, 0, 0)],
        [IVec3::new(0, 0, -1), IVec3::new(0, 0, 2), IVec3::new(2, 0, 0)],
    ] {
        assert_eq!(
            hf.rasterize_triangle(tri, AreaType(1), 1),
            Err(RasterizationError::OutsideGrid)
        );
        assert_eq!(all_columns(&hf), before);
    }
}

#[test]
fn triangle_outside_the_span_heights_is_refused() {
    let mut hf = field(1, 1, IVec3::new(0, 0, 0), 1, 1);
    let below = [IVec3::new(0, -1, 0), IVec3::new(0, 0, 1), IVec3::new(1, 0, 0)];
    assert_eq!(
        hf.rasterize_triangle(below, AreaType(1), 1),
        Err(RasterizationError::InvalidSpan)
    );
    let too_high = [IVec3::new(0, 65535, 0), IVec3::new(0, 65535, 1), IVec3::new(1, 65535, 0)];
    assert_eq!(
        hf.rasterize_triangle(too_high, AreaType(1), 1),
        Err(RasterizationError::InvalidSpan)
    );
    assert_eq!(hf.span_count(), 0);
    let highest = [IVec3::new(0, 65534, 0), IVec3::new(0, 65534, 1), IVec3::new(1, 65534, 0)];
    assert_eq!(hf.rasterize_triangle(highest, AreaType(1), 1), Ok(()));
    assert_eq!(hf.column_spans(0, 0), vec![sd(65534, 65535, 1)]);
}

#[test]
fn degenerate_triangle_is_rasterized_as_the_segment_it_is() {
    let mut hf = field(3, 1, IVec3::new(0, 0, 0), 2, 1);
    let line = [IVec3::new(1, 4, 1), IVec3::new(3, 4, 1), IVec3::new(5, 4, 1)];
    assert_eq!(hf.rasterize_triangle(line, AreaType::null(), 0), Ok(()));
    assert_eq!(
        all_columns(&hf),
        vec![vec![sd(4, 5, 0)], vec![sd(4, 5, 0)], vec![sd(4, 5, 0)]]
    );
}

#[test]
fn flat_square_end_to_end() {
    let (vertices, indices) = floor_square(2, 0);
    let mut mesh = TriMesh {
        vertices,
        indices,
        area_types: vec![AreaType::null(), AreaType::null()],
    };
    // the strictest threshold under which a flat triangle is walkable
    mesh.mark_walkable_triangles(COS_ONE - 1);
    assert_eq!(mesh.area_types, vec![AreaType::default_walkable(); 2]);
    let mut hf = field(2, 2, IVec3::new(0, 0, 0), 1, 1);
    assert_eq!(hf.populate_from_trimesh(mesh, 3, 1), Ok(()));
    for z in 0..2 {
        for x in 0..2 {
            let column = hf.column_spans(x, z);
            assert_eq!(column.len(), 1);
            assert_eq!(column[0].min, 0);
            assert_eq!(column[0].area, 63);
            assert_eq!(column[0], sd(0, 1, 63));
        }
    }
    assert_eq!(hf.span_count(), 4);
}

#[test]
fn flat_square_with_threshold_angle_zero_stays_unwalkable() {
    let (vertices, indices) = floor_square(2, 0);
    let mut mesh = TriMesh {
        vertices,
        indices,
        area_types: vec![AreaType::null(), AreaType::null()],
    };
    mesh.mark_walkable_triangles(COS_ONE);
    let mut hf = field(2, 2, IVec3::new(0, 0, 0), 1, 1);
    assert_eq!(hf.populate_from_trimesh(mesh, 3, 1), Ok(()));
    assert_eq!(all_columns(&hf), vec![vec![sd(0, 1, 0)]; 4]);
}

#[test]
fn raised_unwalkable_patch_within_climb_plus_one_is_fused_and_makes_no_ledge() {
    // cells of 2 units; the floor covers all four cells, the patch lies in
    // cell (1, 1), 2 voxels above the floor
    let (mut vertices, mut indices) = floor_square(4, 0);
    vertices.extend([IVec3::new(3, 2, 3), IVec3::new(3, 2, 4), IVec3::new(4, 6, 3)]);
    indices.push([4, 5, 6]);
    let mut mesh = TriMesh {
        vertices,
        indices,
        area_types: vec![AreaType::null(); 3],
    };
    // 18 degrees: cos = 0.951, times 65536
    mesh.mark_walkable_triangles(62328);
    assert_eq!(
        mesh.area_types,
        vec![AreaType::default_walkable(), AreaType::default_walkable(), AreaType::null()]
    );
    let mut hf = field(2, 2, IVec3::new(0, 0, 0), 2, 1);
    for (i, t) in mesh.indices.iter().enumerate() {
        let corners = [
            mesh.vertices[t[0] as usize],
            mesh.vertices[t[1] as usize],
            mesh.vertices[t[2] as usize],
        ];
        hf.rasterize_triangle(corners, mesh.area_types[i], 1).unwrap();
    }
    let rasterized = vec![
        vec![sd(0, 1, 63)],
        vec![sd(0, 1, 63)],
        vec![sd(0, 1, 63)],
        vec![sd(0, 6, 63)],
    ];
    assert_eq!(all_columns(&hf), rasterized);
    // every floor is at 0: no neighbour's nearest floor lies more than the
    // climb away, so no span is a ledge
    hf.filter_ledge_spans(3, 1);
    assert_eq!(all_columns(&hf), rasterized);
}

#[test]
fn raised_unwalkable_patch_beyond_climb_plus_one_stays_apart() {
    let (mut vertices, mut indices) = floor_square(4, 0);
    vertices.extend([IVec3::new(3, 3, 3), IVec3::new(3, 3, 4), IVec3::new(4, 6, 3)]);
    indices.push([4, 5, 6]);
    let mesh = TriMesh {
        vertices,
        indices,
        area_types: vec![AreaType::default_walkable(), AreaType::default_walkable(), AreaType::null()],
    };
    let mut hf = field(2, 2, IVec3::new(0, 0, 0), 2, 1);
    assert_eq!(hf.populate_from_trimesh(mesh, 3, 1), Ok(()));
    // the floor under the patch has 2 voxels of headroom; the nearest floor
    // of every neighbour is still 0
    assert_eq!(
        all_columns(&hf),
        vec![
            vec![sd(0, 1, 63)],
            vec![sd(0, 1, 63)],
            vec![sd(0, 1, 63)],
            vec![sd(0, 1, 0), sd(3, 6, 0)]
        ]
    );
}

#[test]
fn floor_under_a_low_ceiling_is_downgraded() {
    // the ceiling lies walkable_height - 1 = 3 voxels above the floor and
    // faces down
    let walkable_height: u16 = 4;
    let (mut vertices, mut indices) = floor_square(2, 0);
    let (ceiling, _) = floor_square(2, 3);
    vertices.extend(ceiling);
    indices.push([4, 6, 5]);
    indices.push([6, 7, 5]);
    let mut mesh = TriMesh {
        vertices,
        indices,
        area_types: vec![AreaType::null(); 4],
    };
    mesh.mark_walkable_triangles(COS_ONE - 1);
    assert_eq!(
        mesh.area_types,
        vec![
            AreaType::default_walkable(),
            AreaType::default_walkable(),
            AreaType::null(),
            AreaType::null()
        ]
    );
    let mut hf = field(2, 2, IVec3::new(0, 0, 0), 1, 1);
    assert_eq!(hf.populate_from_trimesh(mesh, walkable_height, 1), Ok(()));
    assert_eq!(all_columns(&hf), vec![vec![sd(0, 1, 0), sd(3, 4, 0)]; 4]);
}

#[test]
fn floor_under_a_ceiling_with_enough_headroom_stays_walkable() {
    let (mut vertices, mut indices) = floor_square(2, 0);
    let (ceiling, _) = floor_square(2, 5);
    vertices.extend(ceiling);
    indices.push([4, 6, 5]);
    indices.push([6, 7, 5]);
    let mut mesh = TriMesh {
        vertices,
        indices,
        area_types: vec![AreaType::null(); 4],
    };
    mesh.mark_walkable_triangles(COS_ONE - 1);
    let mut hf = field(2, 2, IVec3::new(0, 0, 0), 1, 1);
    assert_eq!(hf.populate_from_trimesh(mesh, 4, 1), Ok(()));
    assert_eq!(all_columns(&hf), vec![vec![sd(0, 1, 63), sd(5, 6, 0)]; 4]);
}

#[test]
fn populate_stops_at_the_first_refused_triangle() {
    let (mut vertices, mut indices) = floor_square(2, 0);
    vertices.push(IVec3::new(9, 0, 0));
    indices.insert(1, [0, 1, 4]);
    let mesh = TriMesh {
        vertices,
        indices,
        area_types: vec![AreaType::default_walkable(); 3],
    };
    let mut hf = field(2, 2, IVec3::new(0, 0, 0), 1, 1);
    assert_eq!(
        hf.populate_from_trimesh(mesh, 3, 1),
        Err(RasterizationError::OutsideGrid)
    );
    // the first triangle (0,0) (0,2) (2,0) stays; cell (1, 1) meets it in
    // its corner (1, 1)
    assert_eq!(all_columns(&hf), vec![vec![sd(0, 1, 63)]; 4]);
}

#[test]
fn populate_of_an_empty_mesh_changes_nothing() {
    let mesh = TriMesh {
        vertices: vec![],
        indices: vec![],
        area_types: vec![],
    };
    let mut hf = field(2, 2, IVec3::new(0, 0, 0), 1, 1);
    hf.add_span(0, 0, 0, 1, 63, 1).unwrap();
    assert_eq!(hf.populate_from_trimesh(mesh, 3, 1), Ok(()));
    assert_eq!(all_columns(&hf), vec![vec![sd(0, 1, 63)], vec![], vec![], vec![]]);
}

#[test]
fn every_sampled_point_of_a_triangle_lies_within_a_span_of_its_cells() {
    let triangles = [
        [IVec3::new(1, 0, 2), IVec3::new(37, 25, 9), IVec3::new(12, 60, 41)],
        [IVec3::new(40, 3, 40), IVec3::new(0, 3, 17), IVec3::new(23, 3, 0)],
        [IVec3::new(5, 0, 5), IVec3::new(5, 70, 5), IVec3::new(30, 10, 35)],
        [IVec3::new(0, 0, 0), IVec3::new(42, 80, 42), IVec3::new(42, 1, 0)],
        [IVec3::new(8, 9, 8), IVec3::new(16, 9, 16), IVec3::new(24, 11, 24)],
    ];
    let size = 4;
    let height = 3;
    for tri in triangles.iter() {
        let mut hf = field(11, 11, IVec3::new(0, 0, 0), size, height);
        assert_eq!(hf.rasterize_triangle(*tri, AreaType(1), 0), Ok(()));
        let total: i64 = 12;
        for u in 0..=total {
            for v in 0..=(total - u) {
                let w = total - u - v;
                // the point (u * a + v * b + w * c) / total, by its numerators
                let px = u * tri[0].x as i64 + v * tri[1].x as i64 + w * tri[2].x as i64;
                let py = u * tri[0].y as i64 + v * tri[1].y as i64 + w * tri[2].y as i64;
                let pz = u * tri[0].z as i64 + v * tri[1].z as i64 + w * tri[2].z as i64;
                for z in 0..11i64 {
                    for x in 0..11i64 {
                        let over = x * size as i64 * total <= px
                            && px <= (x + 1) * size as i64 * total
                            && z * size as i64 * total <= pz
                            && pz <= (z + 1) * size as i64 * total;
                        if !over {
                            continue;
                        }
                        let column = hf.column_spans(x as u32, z as u32);
                        let held = column.iter().any(|s| {
                            s.min as i64 * height as i64 * total <= py
                                && py <= s.max as i64 * height as i64 * total
                        });
                        assert!(held, "point {u} {v} {w} of {tri:?} over cell {x} {z}");
                    }
                }
            }
        }
    }
}

#[test]
fn rasterized_columns_ascend_without_overlap() {
    let mut hf = field(11, 11, IVec3::new(0, 0, 0), 4, 3);
    let triangles = [
        [IVec3::new(1, 0, 2), IVec3::new(37, 25, 9), IVec3::new(12, 60, 41)],
        [IVec3::new(40, 90, 40), IVec3::new(0, 93, 17), IVec3::new(23, 120, 0)],
        [IVec3::new(5, 0, 5), IVec3::new(5, 70, 5), IVec3::new(30, 10, 35)],
        [IVec3::new(0, 200, 0), IVec3::new(0, 200, 44), IVec3::new(44, 200, 0)],
    ];
    for tri in triangles.iter() {
        hf.rasterize_triangle(*tri, AreaType(1), 1).unwrap();
    }
    let mut spans = 0;
    for column in all_columns(&hf).iter() {
        spans += column.len();
        for s in column.iter() {
            assert!(s.min < s.max);
        }
        for pair in column.windows(2) {
            assert!(pair[0].max < pair[1].min);
        }
    }
    assert_eq!(spans, hf.span_count());
    assert!(spans > 20);
}
