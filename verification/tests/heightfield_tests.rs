use recast::{Aabb3d, Heightfield, IVec3, RasterizationError, SpanData};

fn unit_field(width: u32, depth: u32) -> Heightfield {
    let bounds = Aabb3d {
        min: IVec3::new(0, 0, 0),
        max: IVec3::new(width as i32, 100, depth as i32),
    };
    Heightfield::new(width, depth, bounds, 1, 1).unwrap()
}

fn sd(min: u16, max: u16, area: u8) -> SpanData {
    SpanData { min, max, area }
}

#[test]
fn new_heightfield_is_empty() {
    let hf = unit_field(3, 2);
    assert_eq!(hf.width(), 3);
    assert_eq!(hf.depth(), 2);
    assert_eq!(hf.cell_size(), 1);
    assert_eq!(hf.cell_height(), 1);
    assert_eq!(hf.bounds().min, IVec3::new(0, 0, 0));
    assert_eq!(hf.column_count(), 6);
    assert_eq!(hf.span_count(), 0);
    for z in 0..2 {
        for x in 0..3 {
            assert_eq!(hf.column_spans(x, z), vec![]);
            assert_eq!(hf.span_key_at(x, z), None);
        }
    }
    assert_eq!(hf.span_key_at(3, 0), None);
    assert_eq!(hf.column_spans(3, 0), vec![]);
    assert_eq!(hf.column_spans(0, 2), vec![]);
    assert!(hf.span_capacity() >= 1024);
}

#[test]
fn large_grid_reserves_a_span_for_each_column() {
    let hf = unit_field(60, 40);
    assert!(hf.span_capacity() >= 2400);
}

#[test]
fn new_heightfield_refuses_cells_without_size() {
    let bounds = Aabb3d {
        min: IVec3::new(0, 0, 0),
        max: IVec3::new(1, 1, 1),
    };
    assert!(Heightfield::new(1, 1, bounds, 0, 1).is_none());
    assert!(Heightfield::new(1, 1, bounds, 1, 0).is_none());
    assert!(Heightfield::new(1, 1, bounds, -1, 1).is_none());
    assert!(Heightfield::new(1, 1, bounds, 1, -3).is_none());
    assert!(Heightfield::new(0, 0, bounds, 1, 1).is_some());
}

#[test]
fn column_index_is_row_major() {
    let hf = unit_field(3, 2);
    assert_eq!(hf.column_index(0, 0), 0);
    assert_eq!(hf.column_index(2, 0), 2);
    assert_eq!(hf.column_index(0, 1), 3);
    assert_eq!(hf.column_index(2, 1), 5);
}

#[test]
fn add_span_keeps_distant_spans_apart_in_ascending_order() {
    let mut hf = unit_field(1, 1);
    assert_eq!(hf.add_span(0, 0, 10, 12, 0, 1), Ok(()));
    assert_eq!(hf.add_span(0, 0, 0, 2, 0, 1), Ok(()));
    assert_eq!(hf.add_span(0, 0, 5, 7, 63, 1), Ok(()));
    assert_eq!(hf.column_spans(0, 0), vec![sd(0, 2, 0), sd(5, 7, 63), sd(10, 12, 0)]);
    assert_eq!(hf.span_count(), 3);
}

#[test]
fn add_span_fuses_everything_within_climb() {
    let mut hf = unit_field(1, 1);
    hf.add_span(0, 0, 0, 2, 0, 1).unwrap();
    hf.add_span(0, 0, 5, 7, 63, 1).unwrap();
    hf.add_span(0, 0, 10, 12, 0, 1).unwrap();
    // one voxel from the span below and one from the span above
    assert_eq!(hf.add_span(0, 0, 3, 4, 7, 1), Ok(()));
    assert_eq!(hf.column_spans(0, 0), vec![sd(0, 7, 63), sd(10, 12, 0)]);
    assert_eq!(hf.span_count(), 2);
}

#[test]
fn add_span_with_climb_zero_fuses_touching_spans_only() {
    let mut hf = unit_field(1, 1);
    hf.add_span(0, 0, 0, 7, 63, 0).unwrap();
    hf.add_span(0, 0, 10, 12, 0, 0).unwrap();
    hf.add_span(0, 0, 13, 14, 1, 0).unwrap();
    assert_eq!(hf.column_spans(0, 0), vec![sd(0, 7, 63), sd(10, 12, 0), sd(13, 14, 1)]);
    hf.add_span(0, 0, 8, 9, 2, 0).unwrap();
    assert_eq!(
        hf.column_spans(0, 0),
        vec![sd(0, 7, 63), sd(8, 9, 2), sd(10, 12, 0), sd(13, 14, 1)]
    );
    hf.add_span(0, 0, 12, 13, 0, 0).unwrap();
    assert_eq!(hf.column_spans(0, 0), vec![sd(0, 7, 63), sd(8, 9, 2), sd(10, 14, 1)]);
    assert_eq!(hf.span_count(), 3);
}

#[test]
fn add_span_grows_with_what_it_fuses() {
    let mut hf = unit_field(1, 1);
    hf.add_span(0, 0, 4, 20, 1, 1).unwrap();
    hf.add_span(0, 0, 21, 30, 2, 1).unwrap();
    assert_eq!(hf.column_spans(0, 0), vec![sd(4, 30, 2)]);
    let mut other = unit_field(1, 1);
    other.add_span(0, 0, 4, 20, 1, 0).unwrap();
    other.add_span(0, 0, 22, 30, 2, 0).unwrap();
    // the new span reaches the upper span only through the lower one
    other.add_span(0, 0, 5, 6, 3, 2).unwrap();
    assert_eq!(other.column_spans(0, 0), vec![sd(4, 30, 3)]);
}

#[test]
fn add_span_covered_by_an_existing_span_changes_the_area_only() {
    let mut hf = unit_field(1, 1);
    hf.add_span(0, 0, 0, 10, 0, 1).unwrap();
    hf.add_span(0, 0, 3, 4, 63, 1).unwrap();
    assert_eq!(hf.column_spans(0, 0), vec![sd(0, 10, 63)]);
    hf.add_span(0, 0, 3, 4, 5, 1).unwrap();
    assert_eq!(hf.column_spans(0, 0), vec![sd(0, 10, 63)]);
}

#[test]
fn add_span_touches_one_column_only() {
    let mut hf = unit_field(2, 2);
    hf.add_span(1, 0, 0, 1, 63, 1).unwrap();
    hf.add_span(0, 1, 4, 6, 2, 1).unwrap();
    assert_eq!(hf.column_spans(0, 0), vec![]);
    assert_eq!(hf.column_spans(1, 0), vec![sd(0, 1, 63)]);
    assert_eq!(hf.column_spans(0, 1), vec![sd(4, 6, 2)]);
    assert_eq!(hf.column_spans(1, 1), vec![]);
}

#[test]
fn add_span_refuses_cells_outside_the_grid() {
    let mut hf = unit_field(2, 1);
    hf.add_span(0, 0, 0, 1, 63, 1).unwrap();
    assert_eq!(hf.add_span(2, 0, 0, 1, 63, 1), Err(RasterizationError::OutsideGrid));
    assert_eq!(hf.add_span(0, 1, 0, 1, 63, 1), Err(RasterizationError::OutsideGrid));
    assert_eq!(hf.column_spans(0, 0), vec![sd(0, 1, 63)]);
    assert_eq!(hf.span_count(), 1);
}

#[test]
fn add_span_refuses_spans_without_height() {
    let mut hf = unit_field(1, 1);
    assert_eq!(hf.add_span(0, 0, 3, 3, 63, 1), Err(RasterizationError::InvalidSpan));
    assert_eq!(hf.add_span(0, 0, 4, 3, 63, 1), Err(RasterizationError::InvalidSpan));
    assert_eq!(hf.column_spans(0, 0), vec![]);
    assert_eq!(hf.span_count(), 0);
}

#[test]
fn add_span_at_the_height_limits() {
    let mut hf = unit_field(1, 1);
    hf.add_span(0, 0, 65534, 65535, 1, 65535).unwrap();
    hf.add_span(0, 0, 0, 1, 2, 0).unwrap();
    assert_eq!(hf.column_spans(0, 0), vec![sd(0, 1, 2), sd(65534, 65535, 1)]);
    hf.add_span(0, 0, 2, 3, 0, 65535).unwrap();
    assert_eq!(hf.column_spans(0, 0), vec![sd(0, 65535, 2)]);
}

#[test]
fn chain_links_follow_the_column() {
    let mut hf = unit_field(1, 1);
    hf.add_span(0, 0, 10, 12, 3, 1).unwrap();
    hf.add_span(0, 0, 0, 2, 1, 1).unwrap();
    hf.add_span(0, 0, 5, 7, 2, 1).unwrap();
    let mut seen = Vec::new();
    let mut cursor = hf.span_key_at(0, 0);
    assert_eq!(cursor, hf.head(0));
    while let Some(key) = cursor {
        let span = hf.span(key).unwrap();
        seen.push(sd(span.min(), span.max(), span.area()));
        cursor = span.next();
    }
    assert_eq!(seen, hf.column_spans(0, 0));
    assert_eq!(seen.len(), 3);
}

#[test]
fn merged_away_spans_leave_stale_keys() {
    let mut hf = unit_field(1, 1);
    hf.add_span(0, 0, 0, 2, 1, 0).unwrap();
    let old = hf.span_key_at(0, 0).unwrap();
    hf.add_span(0, 0, 1, 5, 1, 0).unwrap();
    let fresh = hf.span_key_at(0, 0).unwrap();
    assert_ne!(old, fresh);
    assert_eq!(hf.span(old), None);
    assert_eq!(hf.span(fresh).unwrap().max(), 5);
    assert_eq!(hf.span_count(), 1);
}

#[test]
fn any_sequence_of_inserts_leaves_an_ascending_column_that_covers_them() {
    let inserts: [(u16, u16); 9] = [
        (40, 45),
        (3, 9),
        (100, 101),
        (10, 11),
        (44, 60),
        (0, 1),
        (70, 80),
        (62, 68),
        (20, 30),
    ];
    let climb: u16 = 1;
    let mut hf = unit_field(1, 1);
    for (lo, hi) in inserts.iter() {
        hf.add_span(0, 0, *lo, *hi, 1, climb).unwrap();
    }
    let column = hf.column_spans(0, 0);
    assert_eq!(
        column,
        vec![sd(0, 1, 1), sd(3, 11, 1), sd(20, 30, 1), sd(40, 60, 1), sd(62, 68, 1), sd(70, 80, 1), sd(100, 101, 1)]
    );
    for pair in column.windows(2) {
        assert!(pair[0].max < pair[1].min);
    }
    for s in column.iter() {
        assert!(s.min < s.max);
    }
    for h in 0u16..200 {
        let inserted = inserts.iter().any(|(lo, hi)| *lo <= h && h <= *hi);
        let covered = column.iter().any(|s| s.min <= h && h <= s.max);
        if inserted {
            assert!(covered);
        }
        if covered && !inserted {
            // only a gap no wider than the tolerance is closed
            let below = (0..h).rev().find(|g| inserts.iter().any(|(lo, hi)| lo <= g && g <= hi));
            let above = (h..200).find(|g| inserts.iter().any(|(lo, hi)| lo <= g && g <= hi));
            assert!(above.unwrap() - below.unwrap() <= climb);
        }
    }
}

#[test]
fn with_bounds_lays_out_enough_cells_to_cover_the_box() {
    let bounds = Aabb3d {
        min: IVec3::new(-5, 0, 10),
        max: IVec3::new(5, 3, 11),
    };
    let hf = Heightfield::with_bounds(bounds, 4, 2).unwrap();
    // 10 units along X are 3 cells of 4, 1 unit along Z is 1 cell
    assert_eq!(hf.width(), 3);
    assert_eq!(hf.depth(), 1);
    assert_eq!(hf.bounds(), bounds);
    assert_eq!(hf.cell_size(), 4);
    assert_eq!(hf.cell_height(), 2);
    assert_eq!(hf.span_count(), 0);
    let exact = Heightfield::with_bounds(bounds, 5, 2).unwrap();
    assert_eq!(exact.width(), 2);
    let flat = Aabb3d {
        min: IVec3::new(7, 0, 7),
        max: IVec3::new(7, 0, 7),
    };
    let one = Heightfield::with_bounds(flat, 3, 1).unwrap();
    assert_eq!((one.width(), one.depth()), (1, 1));
}

#[test]
fn with_bounds_refuses_boxes_inside_out_and_cells_without_size() {
    let bounds = Aabb3d {
        min: IVec3::new(0, 0, 0),
        max: IVec3::new(4, 4, 4),
    };
    assert!(Heightfield::with_bounds(bounds, 0, 1).is_none());
    assert!(Heightfield::with_bounds(bounds, 1, 0).is_none());
    let inside_out_x = Aabb3d {
        min: IVec3::new(1, 0, 0),
        max: IVec3::new(0, 4, 4),
    };
    assert!(Heightfield::with_bounds(inside_out_x, 1, 1).is_none());
    let inside_out_z = Aabb3d {
        min: IVec3::new(0, 0, 1),
        max: IVec3::new(4, 4, 0),
    };
    assert!(Heightfield::with_bounds(inside_out_z, 1, 1).is_none());
    let inside_out_y = Aabb3d {
        min: IVec3::new(0, 9, 0),
        max: IVec3::new(4, 4, 4),
    };
    assert!(Heightfield::with_bounds(inside_out_y, 1, 1).is_some());
}

#[test]
fn heightfield_over_the_bounds_of_a_mesh_takes_the_whole_mesh() {
    let vertices = vec![
        IVec3::new(-3, 0, -3),
        IVec3::new(-3, 2, 4),
        IVec3::new(6, 1, -3),
    ];
    let bounds = Aabb3d::from_verts(&vertices).unwrap();
    let mut hf = Heightfield::with_bounds(bounds, 2, 1).unwrap();
    assert_eq!((hf.width(), hf.depth()), (5, 4));
    let tri = [vertices[0], vertices[1], vertices[2]];
    assert_eq!(hf.rasterize_triangle(tri, recast::AreaType(1), 0), Ok(()));
    assert_eq!(hf.column_spans(0, 0).len(), 1);
    assert_eq!(hf.column_spans(4, 3).len(), 0);
}

/// Merging into a plain sorted vector, the way a column is meant to merge.
fn merge_into(column: &mut Vec<SpanData>, mut new: SpanData, climb: u32) {
    let mut kept = Vec::new();
    let mut rest = column.iter().copied().peekable();
    while let Some(s) = rest.peek().copied() {
        if s.min as u32 > new.max as u32 + climb {
            break;
        }
        rest.next();
        if (s.max as u32 + climb) < new.min as u32 {
            kept.push(s);
        } else {
            new = SpanData {
                min: new.min.min(s.min),
                max: new.max.max(s.max),
                area: new.area.max(s.area),
            };
        }
    }
    kept.push(new);
    kept.extend(rest);
    *column = kept;
}

#[test]
fn many_inserts_match_a_plain_vector_model() {
    let mut hf = unit_field(4, 3);
    let mut model: Vec<Vec<SpanData>> = vec![Vec::new(); 12];
    let mut state: u64 = 0x2545_f491_4f6c_dd1d;
    let mut next = |bound: u64| {
        state = state
            .wrapping_mul(6364136223846793005)
            .wrapping_add(1442695040888963407);
        (state >> 33) % bound
    };
    for _ in 0..4000 {
        let x = next(4) as u32;
        let z = next(3) as u32;
        let min = next(300) as u16;
        let max = min + 1 + next(6) as u16;
        let area = next(4) as u8;
        let climb = next(4) as u16;
        assert_eq!(hf.add_span(x, z, min, max, area, climb), Ok(()));
        merge_into(&mut model[(x + z * 4) as usize], sd(min, max, area), climb as u32);
    }
    let mut spans = 0;
    for z in 0..3u32 {
        for x in 0..4u32 {
            let column = hf.column_spans(x, z);
            assert_eq!(column, model[(x + z * 4) as usize]);
            spans += column.len();
            let mut walked = 0;
            let mut cursor = hf.span_key_at(x, z);
            while let Some(key) = cursor {
                let span = hf.span(key).unwrap();
                assert_eq!(sd(span.min(), span.max(), span.area()), column[walked]);
                walked += 1;
                cursor = span.next();
            }
            assert_eq!(walked, column.len());
        }
    }
    assert_eq!(spans, hf.span_count());
}
