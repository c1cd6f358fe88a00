//! What rasterizing a triangle does to each column, and that it misses
//! nothing: every point of the triangle lies within a span of the column
//! of every cell over which it lies.

use vstd::prelude::*;
use vstd::arithmetic::div_mod::{
    lemma_fundamental_div_mod,
    lemma_fundamental_div_mod_converse,
    lemma_mod_bound,
};
use crate::arith::{
    ceil_div,
    floor_div,
    lemma_cancel,
    lemma_ceil_div,
    lemma_ceil_div_monotone,
    lemma_ceil_le_floor_plus_one,
    lemma_floor_div,
    lemma_floor_div_monotone,
    lemma_floor_div_unique,
    lemma_scale_up,
    lemma_weighted_between,
};
use crate::column::{lemma_merge_insert_contains, merge_insert};
use crate::footprint::{
    height_range,
    lemma_height_range_within,
    lemma_point_touches,
    lemma_point_within_height_range,
    spec_max3,
    spec_min3,
    Weights,
};
use crate::heightfield::{cells_to_cover, HeightfieldView};
use crate::math::IVec3;
use crate::rasterize::{cell_count, first_cell, last_cell};
use crate::span::SpanData;

verus! {

impl HeightfieldView {
    /// Cells have a size, and the grid has a column for each cell.
    pub open spec fn well_shaped(self) -> bool {
        &&& self.cell_size > 0
        &&& self.cell_height > 0
        &&& self.columns.len() == self.width * self.depth
    }

    /// Whether cell `(x, z)` is one of the cells that the triangle's
    /// bounding box reaches.
    pub open spec fn in_footprint(self, tri: [IVec3; 3], x: int, z: int) -> bool {
        &&& self.footprint_x(tri).0 <= x < self.footprint_x(tri).0 + self.footprint_x(tri).1
        &&& self.footprint_z(tri).0 <= z < self.footprint_z(tri).0 + self.footprint_z(tri).1
    }

    /// The place of cell `(x, z)` among the cells that the triangle's
    /// bounding box reaches, row by row.
    pub open spec fn cell_number(self, tri: [IVec3; 3], x: int, z: int) -> int {
        (z - self.footprint_z(tri).0) * self.footprint_x(tri).1 + (x - self.footprint_x(tri).0)
    }

    /// The column of cell `(x, z)` after the triangle was rasterized into
    /// the first `k` cells that its bounding box reaches: the cell's span
    /// is merged into it if the cell is among them and the triangle
    /// touches it.
    pub open spec fn rastered_column(
        self,
        tri: [IVec3; 3],
        area: u8,
        climb: int,
        k: int,
        x: int,
        z: int,
    ) -> Seq<SpanData> {
        if self.in_footprint(tri, x, z) && self.cell_number(tri, x, z) < k && self.cell_touched(
            tri,
            x,
            z,
        ) {
            merge_insert(self.columns[self.index(x, z)], self.cell_span(tri, area, x, z), climb)
        } else {
            self.columns[self.index(x, z)]
        }
    }

    /// Whether the point of the triangle lies between the floor and the
    /// ceiling of the span.
    pub open spec fn span_holds(self, span: SpanData, tri: [IVec3; 3], at: Weights) -> bool {
        &&& (self.bounds.min.y + self.cell_height * span.min) * at.total() <= at.y_of(tri)
        &&& at.y_of(tri) <= (self.bounds.min.y + self.cell_height * span.max) * at.total()
    }

    /// Different cells have different columns.
    pub proof fn lemma_index_injective(self, x: int, z: int, x2: int, z2: int)
        requires
            self.has_cell(x, z),
            self.has_cell(x2, z2),
            self.index(x, z) == self.index(x2, z2),
        ensures
            x == x2 && z == z2,
    {
        let w = self.width as int;
        assert(z == z2) by (nonlinear_arith)
            requires
                0 <= x < w,
                0 <= x2 < w,
                x + z * w == x2 + z2 * w,
        ;
        assert(z * w == z2 * w);
    }

    /// Every cell has a column.
    pub proof fn lemma_index_in_range(self, x: int, z: int)
        requires
            self.has_cell(x, z),
        ensures
            0 <= self.index(x, z) < self.width * self.depth,
    {
        let w = self.width as int;
        let d = self.depth as int;
        assert(0 <= x + z * w < w * d) by (nonlinear_arith)
            requires
                0 <= x < w,
                0 <= z < d,
        ;
    }

    /// The cells that a bounding box reaches are cells of the grid.
    pub proof fn lemma_footprint_in_grid(self, tri: [IVec3; 3], x: int, z: int)
        requires
            self.cell_size > 0,
            self.in_footprint(tri, x, z),
        ensures
            self.has_cell(x, z),
    {
        let size = self.cell_size as int;
        let rx = spec_min3(tri[0].x as int, tri[1].x as int, tri[2].x as int) - self.bounds.min.x;
        let rz = spec_min3(tri[0].z as int, tri[1].z as int, tri[2].z as int) - self.bounds.min.z;
        if rx > 0 {
            lemma_floor_div_monotone(0, rx - 1, size);
            lemma_floor_div_unique(0, size, 0);
        }
        if rz > 0 {
            lemma_floor_div_monotone(0, rz - 1, size);
            lemma_floor_div_unique(0, size, 0);
        }
    }

    /// The `k`-th cell of a bounding box is a cell of it, with number `k`.
    pub proof fn lemma_footprint_cell(self, tri: [IVec3; 3], k: int)
        requires
            0 <= k < self.footprint_cells(tri),
        ensures
            self.in_footprint(tri, self.footprint_cell(tri, k).0, self.footprint_cell(tri, k).1),
            self.cell_number(tri, self.footprint_cell(tri, k).0, self.footprint_cell(tri, k).1)
                == k,
    {
        let lx = self.footprint_x(tri).1;
        let lz = self.footprint_z(tri).1;
        assert(lx > 0 && lz > 0) by (nonlinear_arith)
            requires
                0 <= k < lx * lz,
                lx >= 0,
                lz >= 0,
        ;
        lemma_fundamental_div_mod(k, lx);
        lemma_mod_bound(k, lx);
        let q = k / lx;
        let r = k % lx;
        assert(0 <= q < lz) by (nonlinear_arith)
            requires
                lx > 0,
                0 <= k < lx * lz,
                k == lx * q + r,
                0 <= r < lx,
        ;
        assert(q * lx == lx * q) by (nonlinear_arith);
    }

    /// A cell of a bounding box has a number, and is the cell with that number.
    pub proof fn lemma_cell_number(self, tri: [IVec3; 3], x: int, z: int)
        requires
            self.in_footprint(tri, x, z),
        ensures
            0 <= self.cell_number(tri, x, z) < self.footprint_cells(tri),
            self.footprint_cell(tri, self.cell_number(tri, x, z)) == (x, z),
    {
        let fx = self.footprint_x(tri).0;
        let fz = self.footprint_z(tri).0;
        let lx = self.footprint_x(tri).1;
        let lz = self.footprint_z(tri).1;
        let q = z - fz;
        let r = x - fx;
        let k = q * lx + r;
        assert(0 <= k < lx * lz) by (nonlinear_arith)
            requires
                0 <= q < lz,
                0 <= r < lx,
                k == q * lx + r,
        ;
        lemma_fundamental_div_mod_converse(k, lx, q, r);
    }

    /// Rasterizing a triangle leaves the grid as it is.
    pub proof fn lemma_raster_cells_shape(self, tri: [IVec3; 3], area: u8, climb: int, k: int)
        requires
            self.well_shaped(),
            k <= self.footprint_cells(tri),
        ensures
            self.raster_cells(tri, area, climb, k).same_grid(self),
        decreases k,
    {
        if k > 0 {
            self.lemma_raster_cells_shape(tri, area, climb, k - 1);
            let before = self.raster_cells(tri, area, climb, k - 1);
            let cell = self.footprint_cell(tri, k - 1);
            self.lemma_footprint_cell(tri, k - 1);
            self.lemma_footprint_in_grid(tri, cell.0, cell.1);
            before.lemma_index_in_range(cell.0, cell.1);
        }
    }

    /// What rasterizing a triangle into the first `k` cells of its bounding
    /// box has done to each column.
    pub proof fn lemma_raster_cells_column(
        self,
        tri: [IVec3; 3],
        area: u8,
        climb: int,
        k: int,
        x: int,
        z: int,
    )
        requires
            self.well_shaped(),
            0 <= k <= self.footprint_cells(tri),
            self.has_cell(x, z),
        ensures
            self.raster_cells(tri, area, climb, k).columns[self.index(x, z)]
                == self.rastered_column(tri, area, climb, k, x, z),
        decreases k,
    {
        if k > 0 {
            self.lemma_raster_cells_column(tri, area, climb, k - 1, x, z);
            self.lemma_raster_cells_shape(tri, area, climb, k - 1);
            let before = self.raster_cells(tri, area, climb, k - 1);
            let cell = self.footprint_cell(tri, k - 1);
            self.lemma_footprint_cell(tri, k - 1);
            self.lemma_footprint_in_grid(tri, cell.0, cell.1);
            before.lemma_index_in_range(cell.0, cell.1);
            self.lemma_index_in_range(x, z);
            assert(before.cell_touched(tri, cell.0, cell.1) == self.cell_touched(
                tri,
                cell.0,
                cell.1,
            ));
            assert(before.cell_span(tri, area, cell.0, cell.1) == self.cell_span(
                tri,
                area,
                cell.0,
                cell.1,
            ));
            if cell == (x, z) {
            } else {
                if self.index(cell.0, cell.1) == self.index(x, z) {
                    self.lemma_index_injective(x, z, cell.0, cell.1);
                }
                if self.in_footprint(tri, x, z) {
                    self.lemma_cell_number(tri, x, z);
                }
            }
        }
    }

    /// A grid that was laid out over a box holds the footprint of every
    /// triangle whose corners lie in the box.
    pub proof fn lemma_grid_over_bounds_holds_footprint(self, tri: [IVec3; 3])
        requires
            self.cell_size > 0,
            self.width == cells_to_cover(
                self.bounds.max.x - self.bounds.min.x,
                self.cell_size as int,
            ),
            self.depth == cells_to_cover(
                self.bounds.max.z - self.bounds.min.z,
                self.cell_size as int,
            ),
            self.bounds.contains(tri[0]),
            self.bounds.contains(tri[1]),
            self.bounds.contains(tri[2]),
        ensures
            self.holds_footprint(tri),
    {
        let size = self.cell_size as int;
        let ex = self.bounds.max.x - self.bounds.min.x;
        let ez = self.bounds.max.z - self.bounds.min.z;
        lemma_ceil_div(ex, size);
        lemma_ceil_div(ez, size);
        lemma_scale_up(size, ceil_div(ex, size), self.width as int);
        lemma_scale_up(size, ceil_div(ez, size), self.depth as int);
        assert(self.width * size == size * self.width) by (nonlinear_arith);
        assert(self.depth * size == size * self.depth) by (nonlinear_arith);
    }

    /// A cell over which the triangle has a point is a cell that the
    /// triangle's bounding box reaches.
    pub proof fn lemma_point_in_footprint(self, tri: [IVec3; 3], at: Weights, x: int, z: int)
        requires
            self.cell_size > 0,
            self.has_cell(x, z),
            self.holds_footprint(tri),
            at.valid(),
            at.over(tri, self.cell_x(x), self.cell_z(z), self.cell_x(x + 1), self.cell_z(z + 1)),
        ensures
            self.in_footprint(tri, x, z),
    {
        let t = at.total();
        let size = self.cell_size as int;
        let min_x = spec_min3(tri[0].x as int, tri[1].x as int, tri[2].x as int);
        let max_x = spec_max3(tri[0].x as int, tri[1].x as int, tri[2].x as int);
        let min_z = spec_min3(tri[0].z as int, tri[1].z as int, tri[2].z as int);
        let max_z = spec_max3(tri[0].z as int, tri[1].z as int, tri[2].z as int);
        lemma_weighted_between(
            at.u,
            at.v,
            at.w,
            tri[0].x as int,
            tri[1].x as int,
            tri[2].x as int,
            min_x,
            max_x,
        );
        lemma_weighted_between(
            at.u,
            at.v,
            at.w,
            tri[0].z as int,
            tri[1].z as int,
            tri[2].z as int,
            min_z,
            max_z,
        );
        lemma_extent_reaches_cell(
            self.bounds.min.x as int,
            size,
            self.width as int,
            min_x,
            max_x,
            at.x_of(tri),
            t,
            x,
        );
        lemma_extent_reaches_cell(
            self.bounds.min.z as int,
            size,
            self.depth as int,
            min_z,
            max_z,
            at.z_of(tri),
            t,
            z,
        );
    }

    /// Within the heights that spans can hold, the span of a cell reaches
    /// from below the lowest to above the highest height of the range
    /// computed for the cell.
    pub proof fn lemma_cell_span_bounds(self, tri: [IVec3; 3], area: u8, x: int, z: int)
        requires
            self.cell_height > 0,
            self.holds_heights(tri),
        ensures
            ({
                let range = height_range(
                    tri,
                    self.cell_x(x),
                    self.cell_z(z),
                    self.cell_x(x + 1),
                    self.cell_z(z + 1),
                );
                let span = self.cell_span(tri, area, x, z);
                &&& span.min < span.max
                &&& self.bounds.min.y + self.cell_height * span.min <= range.0
                &&& range.1 <= self.bounds.min.y + self.cell_height * span.max
            }),
    {
        let x0 = self.cell_x(x);
        let z0 = self.cell_z(z);
        let x1 = self.cell_x(x + 1);
        let z1 = self.cell_z(z + 1);
        let range = height_range(tri, x0, z0, x1, z1);
        lemma_height_range_within(tri, x0, z0, x1, z1);
        let oy = self.bounds.min.y as int;
        let h = self.cell_height as int;
        let max_y = spec_max3(tri[0].y as int, tri[1].y as int, tri[2].y as int);
        lemma_floor_div_monotone(0, range.0 - oy, h);
        lemma_floor_div_monotone(range.0 - oy, max_y - oy, h);
        lemma_floor_div_monotone(range.1 - oy, max_y - oy, h);
        lemma_ceil_le_floor_plus_one(range.1 - oy, h);
        lemma_ceil_div_monotone(0, range.1 - oy, h);
        lemma_floor_div_unique(0, h, 0);
        assert(ceil_div(0, h) == 0);
        lemma_floor_div(range.0 - oy, h);
        lemma_ceil_div(range.1 - oy, h);
        let min = floor_div(range.0 - oy, h);
        let top = ceil_div(range.1 - oy, h);
        if top <= min {
            assert(h * (min + 1) >= h * top) by (nonlinear_arith)
                requires
                    h > 0,
                    top <= min,
            ;
        }
    }

    /// Rasterization is conservative. After a triangle was rasterized, every
    /// point of it lies within a span of the column of every cell over
    /// which it lies: the cell has a span, and the span reaches from below
    /// the point to above it.
    pub proof fn lemma_rasterization_is_conservative(
        self,
        tri: [IVec3; 3],
        area: u8,
        climb: int,
        at: Weights,
        x: int,
        z: int,
    )
        requires
            self.well_shaped(),
            self.rasterize_triangle(tri, area, climb).is_ok(),
            self.has_cell(x, z),
            at.valid(),
            at.over(tri, self.cell_x(x), self.cell_z(z), self.cell_x(x + 1), self.cell_z(z + 1)),
        ensures
            ({
                let after = self.rasterize_triangle(tri, area, climb).unwrap();
                exists|i: int|
                    0 <= i < after.columns[self.index(x, z)].len() && self.span_holds(
                        #[trigger] after.columns[self.index(x, z)][i],
                        tri,
                        at,
                    )
            }),
    {
        let after = self.rasterize_triangle(tri, area, climb).unwrap();
        let cells = self.footprint_cells(tri);
        let x0 = self.cell_x(x);
        let z0 = self.cell_z(z);
        let x1 = self.cell_x(x + 1);
        let z1 = self.cell_z(z + 1);
        let t = at.total();
        self.lemma_point_in_footprint(tri, at, x, z);
        self.lemma_cell_number(tri, x, z);
        lemma_point_touches(tri, at, x0, z0, x1, z1);
        self.lemma_raster_cells_column(tri, area, climb, cells, x, z);
        let span = self.cell_span(tri, area, x, z);
        let old_column = self.columns[self.index(x, z)];
        let column = after.columns[self.index(x, z)];
        assert(column == merge_insert(old_column, span, climb));
        lemma_merge_insert_contains(old_column, span, climb);
        let i = choose|i: int|
            0 <= i < column.len() && (#[trigger] column[i]).min <= span.min && span.max
                <= column[i].max;
        // the cell's span holds the point, and the span of the column holds the cell's span
        self.lemma_cell_span_bounds(tri, area, x, z);
        lemma_point_within_height_range(tri, at, x0, z0, x1, z1);
        let range = height_range(tri, x0, z0, x1, z1);
        let oy = self.bounds.min.y as int;
        let h = self.cell_height as int;
        lemma_scale_up(h, column[i].min as int, span.min as int);
        lemma_scale_up(h, span.max as int, column[i].max as int);
        lemma_scale_up(t, oy + h * column[i].min, range.0);
        lemma_scale_up(t, range.1, oy + h * column[i].max);
        assert(t * (oy + h * column[i].min) == (oy + h * column[i].min) * t) by (nonlinear_arith);
        assert(t * (oy + h * column[i].max) == (oy + h * column[i].max) * t) by (nonlinear_arith);
        assert(t * range.0 == range.0 * t) by (nonlinear_arith);
        assert(t * range.1 == range.1 * t) by (nonlinear_arith);
        assert(self.span_holds(column[i], tri, at));
    }
}

/// Along one axis: where an extent from `low` to `high` lies within a grid
/// of `count` cells and holds a point of cell `x`, cell `x` lies between
/// the first and the last cell that the extent reaches. The point is
/// `p / t`.
proof fn lemma_extent_reaches_cell(
    origin: int,
    size: int,
    count: int,
    low: int,
    high: int,
    p: int,
    t: int,
    x: int,
)
    requires
        size > 0,
        t > 0,
        0 <= x < count,
        origin <= low,
        low * t <= p <= high * t,
        (origin + x * size) * t <= p <= (origin + (x + 1) * size) * t,
    ensures
        first_cell(low - origin, size) <= x <= last_cell(high - origin, size, count),
        x < first_cell(low - origin, size) + cell_count(
            first_cell(low - origin, size),
            last_cell(high - origin, size, count),
        ),
{
    // the cell begins before the extent ends, and ends after the extent begins
    assert(t * (origin + x * size) == (origin + x * size) * t && t * high == high * t && t * low
        == low * t && t * (origin + (x + 1) * size) == (origin + (x + 1) * size) * t)
        by (nonlinear_arith);
    lemma_cancel(t, origin + x * size, high);
    lemma_cancel(t, low, origin + (x + 1) * size);
    let rel0 = low - origin;
    let rel1 = high - origin;
    assert(x * size <= rel1);
    assert(rel0 <= (x + 1) * size);
    lemma_floor_div(rel1, size);
    let last = floor_div(rel1, size);
    assert(x <= last) by (nonlinear_arith)
        requires
            size > 0,
            x * size <= rel1,
            rel1 < size * last + size,
    ;
    if rel0 > 0 {
        lemma_floor_div(rel0 - 1, size);
        let first = floor_div(rel0 - 1, size);
        assert(first <= x) by (nonlinear_arith)
            requires
                size > 0,
                size * first <= rel0 - 1,
                rel0 <= (x + 1) * size,
        ;
    }
}

} // verus!
