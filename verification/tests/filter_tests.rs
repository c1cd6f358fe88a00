use recast::{Aabb3d, Heightfield, IVec3, SpanData};

fn unit_field(width: u32, depth: u32) -> Heightfield {
    let bounds = Aabb3d {
        min: IVec3::new(0, 0, 0),
        max: IVec3::new(width as i32, 100, depth as i32),
    };
    Heightfield::new(width, depth, bounds, 1, 1).unwrap()
}

fn sd(min: u16, max: u16, area: u8) -> SpanData {
    SpanData { min, max, area }
}

fn all_columns(hf: &Heightfield) -> Vec<Vec<SpanData>> {
    let mut out = Vec::new();
    for z in 0..hf.depth() {
        for x in 0..hf.width() {
            out.push(hf.column_spans(x, z));
        }
    }
    out
}

#[test]
fn low_height_filter_downgrades_spans_under_a_low_ceiling() {
    let mut hf = unit_field(1, 1);
    hf.add_span(0, 0, 0, 1, 63, 1).unwrap();
    hf.add_span(0, 0, 3, 4, 63, 1).unwrap();
    hf.add_span(0, 0, 10, 11, 63, 1).unwrap();
    hf.filter_walkable_low_height_spans(3);
    assert_eq!(hf.column_spans(0, 0), vec![sd(0, 1, 0), sd(3, 4, 63), sd(10, 11, 63)]);
    assert_eq!(hf.span_count(), 3);
}

#[test]
fn low_height_filter_clearance_equal_to_the_height_is_enough() {
    let mut hf = unit_field(1, 1);
    hf.add_span(0, 0, 0, 1, 63, 1).unwrap();
    hf.add_span(0, 0, 4, 5, 63, 1).unwrap();
    hf.filter_walkable_low_height_spans(3);
    assert_eq!(hf.column_spans(0, 0), vec![sd(0, 1, 63), sd(4, 5, 63)]);
    hf.filter_walkable_low_height_spans(4);
    assert_eq!(hf.column_spans(0, 0), vec![sd(0, 1, 0), sd(4, 5, 63)]);
}

#[test]
fn low_height_filter_twice_is_the_same_as_once() {
    let mut once = unit_field(2, 1);
    let mut twice = unit_field(2, 1);
    for hf in [&mut once, &mut twice] {
        hf.add_span(0, 0, 0, 1, 63, 0).unwrap();
        hf.add_span(0, 0, 2, 3, 5, 0).unwrap();
        hf.add_span(0, 0, 4, 9, 63, 0).unwrap();
        hf.add_span(0, 0, 30, 31, 63, 0).unwrap();
        hf.add_span(1, 0, 7, 8, 63, 0).unwrap();
    }
    once.filter_walkable_low_height_spans(3);
    twice.filter_walkable_low_height_spans(3);
    twice.filter_walkable_low_height_spans(3);
    assert_eq!(all_columns(&once), all_columns(&twice));
    assert_eq!(
        all_columns(&once),
        vec![
            vec![sd(0, 1, 0), sd(2, 3, 0), sd(4, 9, 63), sd(30, 31, 63)],
            vec![sd(7, 8, 63)]
        ]
    );
}

#[test]
fn low_hanging_filter_gives_the_lower_span_the_upper_area() {
    let mut hf = unit_field(1, 1);
    hf.add_span(0, 0, 0, 1, 0, 1).unwrap();
    hf.add_span(0, 0, 3, 4, 63, 1).unwrap();
    let mut unchanged = unit_field(1, 1);
    unchanged.add_span(0, 0, 0, 1, 0, 1).unwrap();
    unchanged.add_span(0, 0, 3, 4, 63, 1).unwrap();
    unchanged.filter_low_hanging_walkable_obstacles(1);
    assert_eq!(unchanged.column_spans(0, 0), vec![sd(0, 1, 0), sd(3, 4, 63)]);
    hf.filter_low_hanging_walkable_obstacles(2);
    assert_eq!(hf.column_spans(0, 0), vec![sd(0, 1, 63), sd(3, 4, 63)]);
}

#[test]
fn low_hanging_filter_decides_on_the_areas_as_they_were() {
    let mut hf = unit_field(1, 1);
    hf.add_span(0, 0, 0, 1, 0, 1).unwrap();
    hf.add_span(0, 0, 3, 4, 0, 1).unwrap();
    hf.add_span(0, 0, 6, 7, 21, 1).unwrap();
    hf.filter_low_hanging_walkable_obstacles(2);
    assert_eq!(hf.column_spans(0, 0), vec![sd(0, 1, 0), sd(3, 4, 21), sd(6, 7, 21)]);
}

#[test]
fn low_hanging_filter_leaves_walkable_lower_spans_alone() {
    let mut hf = unit_field(1, 1);
    hf.add_span(0, 0, 0, 1, 7, 1).unwrap();
    hf.add_span(0, 0, 3, 4, 63, 1).unwrap();
    hf.add_span(0, 0, 6, 7, 0, 1).unwrap();
    hf.filter_low_hanging_walkable_obstacles(5);
    assert_eq!(hf.column_spans(0, 0), vec![sd(0, 1, 7), sd(3, 4, 63), sd(6, 7, 0)]);
}

#[test]
fn ledge_filter_downgrades_spans_whose_neighbour_floor_is_far() {
    let mut hf = unit_field(3, 1);
    hf.add_span(0, 0, 0, 1, 63, 1).unwrap();
    hf.add_span(1, 0, 5, 6, 63, 1).unwrap();
    hf.filter_ledge_spans(3, 1);
    assert_eq!(
        all_columns(&hf),
        vec![vec![sd(0, 1, 0)], vec![sd(5, 6, 0)], vec![]]
    );
}

#[test]
fn ledge_filter_spread_equal_to_climb_is_no_ledge() {
    let mut hf = unit_field(3, 1);
    hf.add_span(0, 0, 0, 1, 63, 1).unwrap();
    hf.add_span(1, 0, 5, 6, 63, 1).unwrap();
    hf.filter_ledge_spans(3, 5);
    assert_eq!(
        all_columns(&hf),
        vec![vec![sd(0, 1, 63)], vec![sd(5, 6, 63)], vec![]]
    );
    hf.filter_ledge_spans(3, 4);
    assert_eq!(
        all_columns(&hf),
        vec![vec![sd(0, 1, 0)], vec![sd(5, 6, 0)], vec![]]
    );
}

#[test]
fn ledge_filter_takes_the_nearest_floor_of_each_neighbour() {
    // the middle span at floor 10 has a west neighbour with floors 0 and 9
    // and an east neighbour with floors 11 and 40
    let mut hf = unit_field(3, 1);
    hf.add_span(0, 0, 0, 1, 0, 0).unwrap();
    hf.add_span(0, 0, 9, 10, 0, 0).unwrap();
    hf.add_span(1, 0, 10, 12, 63, 0).unwrap();
    hf.add_span(2, 0, 11, 12, 0, 0).unwrap();
    hf.add_span(2, 0, 40, 41, 0, 0).unwrap();
    let mut lax = unit_field(3, 1);
    lax.add_span(0, 0, 0, 1, 0, 0).unwrap();
    lax.add_span(0, 0, 9, 10, 0, 0).unwrap();
    lax.add_span(1, 0, 10, 12, 63, 0).unwrap();
    lax.add_span(2, 0, 11, 12, 0, 0).unwrap();
    lax.add_span(2, 0, 40, 41, 0, 0).unwrap();
    // nearest floors 9 and 11 lie 2 apart
    lax.filter_ledge_spans(3, 2);
    assert_eq!(lax.column_spans(1, 0), vec![sd(10, 12, 63)]);
    hf.filter_ledge_spans(3, 1);
    assert_eq!(hf.column_spans(1, 0), vec![sd(10, 12, 0)]);
    assert_eq!(hf.column_spans(0, 0), vec![sd(0, 1, 0), sd(9, 10, 0)]);
    assert_eq!(hf.column_spans(2, 0), vec![sd(11, 12, 0), sd(40, 41, 0)]);
}

#[test]
fn ledge_filter_looks_in_all_four_directions() {
    for (nx, nz) in [(0u32, 1u32), (2, 1), (1, 0), (1, 2)] {
        let mut hf = unit_field(3, 3);
        hf.add_span(1, 1, 10, 11, 63, 0).unwrap();
        hf.add_span(nx, nz, 20, 21, 0, 0).unwrap();
        hf.filter_ledge_spans(3, 2);
        assert_eq!(hf.column_spans(1, 1), vec![sd(10, 11, 0)]);
        assert_eq!(hf.column_spans(nx, nz), vec![sd(20, 21, 0)]);
    }
    let mut diagonal = unit_field(3, 3);
    diagonal.add_span(1, 1, 10, 11, 63, 0).unwrap();
    diagonal.add_span(0, 0, 20, 21, 0, 0).unwrap();
    diagonal.add_span(2, 2, 20, 21, 0, 0).unwrap();
    diagonal.filter_ledge_spans(3, 2);
    assert_eq!(diagonal.column_spans(1, 1), vec![sd(10, 11, 63)]);
}

#[test]
fn ledge_filter_does_not_wrap_around_rows() {
    // cell (2, 0) and cell (0, 1) are neighbours in memory, not in the grid
    let mut hf = unit_field(3, 2);
    hf.add_span(2, 0, 0, 1, 63, 0).unwrap();
    hf.add_span(0, 1, 30, 31, 63, 0).unwrap();
    hf.filter_ledge_spans(3, 1);
    assert_eq!(hf.column_spans(2, 0), vec![sd(0, 1, 63)]);
    assert_eq!(hf.column_spans(0, 1), vec![sd(30, 31, 63)]);
}

#[test]
fn ledge_filter_ignores_the_walkable_height() {
    let mut a = unit_field(2, 1);
    let mut b = unit_field(2, 1);
    for hf in [&mut a, &mut b] {
        hf.add_span(0, 0, 0, 1, 63, 0).unwrap();
        hf.add_span(1, 0, 3, 4, 63, 0).unwrap();
    }
    a.filter_ledge_spans(3, 2);
    b.filter_ledge_spans(60000, 2);
    assert_eq!(all_columns(&a), all_columns(&b));
    assert_eq!(all_columns(&a), vec![vec![sd(0, 1, 0)], vec![sd(3, 4, 0)]]);
}

#[test]
fn filters_never_add_remove_or_resize_spans() {
    let mut hf = unit_field(2, 2);
    hf.add_span(0, 0, 0, 1, 63, 0).unwrap();
    hf.add_span(0, 0, 2, 3, 0, 0).unwrap();
    hf.add_span(1, 0, 8, 9, 63, 0).unwrap();
    hf.add_span(1, 1, 1, 4, 63, 0).unwrap();
    hf.add_span(1, 1, 5, 6, 63, 0).unwrap();
    let before = all_columns(&hf);
    hf.filter_low_hanging_walkable_obstacles(1);
    hf.filter_ledge_spans(3, 1);
    hf.filter_walkable_low_height_spans(3);
    let after = all_columns(&hf);
    assert_eq!(before.len(), after.len());
    for (b, a) in before.iter().zip(after.iter()) {
        assert_eq!(b.len(), a.len());
        for (s, t) in b.iter().zip(a.iter()) {
            assert_eq!((s.min, s.max), (t.min, t.max));
        }
    }
    assert_eq!(hf.span_count(), 5);
}

#[test]
fn ledge_filter_twice_is_the_same_as_once() {
    let mut once = unit_field(3, 2);
    let mut twice = unit_field(3, 2);
    for hf in [&mut once, &mut twice] {
        hf.add_span(0, 0, 0, 1, 63, 0).unwrap();
        hf.add_span(1, 0, 1, 2, 63, 0).unwrap();
        hf.add_span(2, 0, 2, 3, 63, 0).unwrap();
        hf.add_span(0, 1, 9, 10, 63, 0).unwrap();
        hf.add_span(1, 1, 1, 3, 5, 0).unwrap();
        hf.add_span(1, 1, 20, 21, 63, 0).unwrap();
    }
    once.filter_ledge_spans(3, 1);
    twice.filter_ledge_spans(3, 1);
    twice.filter_ledge_spans(3, 1);
    assert_eq!(all_columns(&once), all_columns(&twice));
    assert_eq!(
        all_columns(&once),
        vec![
            // floors 0, 1 and 9 around it
            vec![sd(0, 1, 0)],
            // floors 0, 1 and 2 around it
            vec![sd(1, 2, 0)],
            // floors 1 and 2
            vec![sd(2, 3, 63)],
            vec![sd(9, 10, 0)],
            vec![sd(1, 3, 0), sd(20, 21, 0)],
            vec![]
        ]
    );
}

#[test]
fn low_hanging_filter_can_reach_one_span_further_each_time() {
    let mut hf = unit_field(1, 1);
    hf.add_span(0, 0, 0, 1, 0, 1).unwrap();
    hf.add_span(0, 0, 3, 4, 0, 1).unwrap();
    hf.add_span(0, 0, 6, 7, 21, 1).unwrap();
    hf.filter_low_hanging_walkable_obstacles(2);
    assert_eq!(hf.column_spans(0, 0), vec![sd(0, 1, 0), sd(3, 4, 21), sd(6, 7, 21)]);
    hf.filter_low_hanging_walkable_obstacles(2);
    assert_eq!(hf.column_spans(0, 0), vec![sd(0, 1, 21), sd(3, 4, 21), sd(6, 7, 21)]);
}
