//! Rasterization: spans are merged into columns, triangles into spans.

use vstd::prelude::*;
use crate::arena::MAX_SPANS;
use crate::arith::{
    ceil_div,
    ceil_div_i128,
    floor_div,
    floor_div_i128,
    lemma_ceil_div_monotone,
    lemma_ceil_le_floor_plus_one,
    lemma_floor_div,
    lemma_floor_div_monotone,
    lemma_floor_div_unique,
    lemma_mul_bound,
};
use crate::column::{ascending, lemma_merge_insert_len, merge_insert};
use crate::footprint::{
    corners_in_range,
    height_range,
    height_range_of,
    is_touched,
    lemma_height_range_within,
    spec_max3,
    spec_min3,
    touches,
};
use crate::heightfield::{Heightfield, HeightfieldView};
use crate::math::{IVec3, COORD_MAX};
use crate::span::{AreaType, SpanData, SpanKey};
use crate::trimesh::{cross, max3, min3, spec_cross, NORMAL_MAX};

verus! {

broadcast use crate::heightfield::Heightfield::lemma_view;

/// Why a triangle or a span could not be put into a heightfield.
#[derive(Clone, Copy, PartialEq, Eq, Debug, Structural)]
pub enum RasterizationError {
    /// The geometry reaches beyond the grid.
    OutsideGrid,
    /// The span has no height, or lies outside the heights that a span can hold.
    InvalidSpan,
    /// The arena holds as many spans as it can.
    OutOfSpans,
}

impl HeightfieldView {
    /// The heightfield after [`Heightfield::add_span`], or the error with
    /// which the span is refused: the cell is not of the grid, the span has
    /// no height, or the column would grow while the arena is full.
    pub open spec fn add_span(self, x: u32, z: u32, span: SpanData, climb: int) -> Result<
        HeightfieldView,
        RasterizationError,
    > {
        let c = self.index(x as int, z as int);
        let merged = merge_insert(self.columns[c], span, climb);
        if !self.has_cell(x as int, z as int) {
            Err(RasterizationError::OutsideGrid)
        } else if span.min >= span.max {
            Err(RasterizationError::InvalidSpan)
        } else if merged.len() > self.columns[c].len() && self.live >= MAX_SPANS {
            Err(RasterizationError::OutOfSpans)
        } else {
            Ok(self.with_span(x as int, z as int, span, climb))
        }
    }

    /// The heightfield with the span merged into the column of cell
    /// `(x, z)`. The arena holds as many spans more, or fewer, as the column.
    pub open spec fn with_span(self, x: int, z: int, span: SpanData, climb: int)
        -> HeightfieldView {
        let c = self.index(x, z);
        let merged = merge_insert(self.columns[c], span, climb);
        HeightfieldView {
            columns: self.columns.update(c, merged),
            live: (self.live + merged.len() - self.columns[c].len()) as nat,
            ..self
        }
    }
}

/// A cell that is not past the last cell of an extent begins within the extent.
proof fn lemma_cell_bounds(size: int, x: int, last: int, rel: int)
    requires
        size > 0,
        0 <= x <= last,
        size * last <= rel,
    ensures
        0 <= x * size <= rel,
{
    assert(0 <= x * size <= rel) by (nonlinear_arith)
        requires
            size > 0,
            0 <= x <= last,
            size * last <= rel,
    ;
}

/// Index of the first cell, along one axis, that an extent starting `rel`
/// units from the grid's origin reaches: cells are closed, so an extent
/// that starts on the border of two cells reaches the lower one too.
pub open spec fn first_cell(rel: int, size: int) -> int {
    if rel <= 0 {
        0
    } else {
        floor_div(rel - 1, size)
    }
}

/// Index of the last cell, along one axis with `count` cells, that an
/// extent ending `rel` units from the grid's origin reaches.
pub open spec fn last_cell(rel: int, size: int, count: int) -> int {
    if floor_div(rel, size) < count - 1 {
        floor_div(rel, size)
    } else {
        count - 1
    }
}

/// Number of cells from `first` to `last`.
pub open spec fn cell_count(first: int, last: int) -> int {
    if last >= first {
        last - first + 1
    } else {
        0
    }
}

impl HeightfieldView {
    /// Where cell `x` begins along X.
    pub open spec fn cell_x(self, x: int) -> int {
        self.bounds.min.x + x * self.cell_size
    }

    /// Where cell `z` begins along Z.
    pub open spec fn cell_z(self, z: int) -> int {
        self.bounds.min.z + z * self.cell_size
    }

    /// Whether the triangle, seen from above, lies within the grid.
    pub open spec fn holds_footprint(self, tri: [IVec3; 3]) -> bool {
        &&& self.bounds.min.x <= spec_min3(tri[0].x as int, tri[1].x as int, tri[2].x as int)
        &&& spec_max3(tri[0].x as int, tri[1].x as int, tri[2].x as int) <= self.cell_x(
            self.width as int,
        )
        &&& self.bounds.min.z <= spec_min3(tri[0].z as int, tri[1].z as int, tri[2].z as int)
        &&& spec_max3(tri[0].z as int, tri[1].z as int, tri[2].z as int) <= self.cell_z(
            self.depth as int,
        )
    }

    /// Whether spans can hold the heights of the triangle: none lies below
    /// the grid's origin, and the highest lies in a voxel below the last.
    pub open spec fn holds_heights(self, tri: [IVec3; 3]) -> bool {
        &&& self.bounds.min.y <= spec_min3(tri[0].y as int, tri[1].y as int, tri[2].y as int)
        &&& floor_div(
            spec_max3(tri[0].y as int, tri[1].y as int, tri[2].y as int) - self.bounds.min.y,
            self.cell_height as int,
        ) < 0xffff
    }

    /// The first cell along X of the triangle's bounding box, and the number
    /// of cells along X that the box reaches.
    pub open spec fn footprint_x(self, tri: [IVec3; 3]) -> (int, int) {
        let first = first_cell(
            spec_min3(tri[0].x as int, tri[1].x as int, tri[2].x as int) - self.bounds.min.x,
            self.cell_size as int,
        );
        let last = last_cell(
            spec_max3(tri[0].x as int, tri[1].x as int, tri[2].x as int) - self.bounds.min.x,
            self.cell_size as int,
            self.width as int,
        );
        (first, cell_count(first, last))
    }

    /// The first cell along Z of the triangle's bounding box, and the number
    /// of cells along Z that the box reaches.
    pub open spec fn footprint_z(self, tri: [IVec3; 3]) -> (int, int) {
        let first = first_cell(
            spec_min3(tri[0].z as int, tri[1].z as int, tri[2].z as int) - self.bounds.min.z,
            self.cell_size as int,
        );
        let last = last_cell(
            spec_max3(tri[0].z as int, tri[1].z as int, tri[2].z as int) - self.bounds.min.z,
            self.cell_size as int,
            self.depth as int,
        );
        (first, cell_count(first, last))
    }

    /// Number of cells that the triangle's bounding box reaches.
    pub open spec fn footprint_cells(self, tri: [IVec3; 3]) -> int {
        self.footprint_x(tri).1 * self.footprint_z(tri).1
    }

    /// The `k`-th cell that the triangle's bounding box reaches, row by row.
    pub open spec fn footprint_cell(self, tri: [IVec3; 3], k: int) -> (int, int) {
        (
            self.footprint_x(tri).0 + k % self.footprint_x(tri).1,
            self.footprint_z(tri).0 + k / self.footprint_x(tri).1,
        )
    }

    /// Whether the triangle reaches cell `(x, z)`.
    pub open spec fn cell_touched(self, tri: [IVec3; 3], x: int, z: int) -> bool {
        touches(tri, self.cell_x(x), self.cell_z(z), self.cell_x(x + 1), self.cell_z(z + 1))
    }

    /// The span that the triangle leaves in cell `(x, z)`: from the voxel
    /// that holds the lowest height of its range above the cell to the end
    /// of the voxel that holds the highest, and one voxel high at least.
    pub open spec fn cell_span(self, tri: [IVec3; 3], area: u8, x: int, z: int) -> SpanData {
        let range = height_range(
            tri,
            self.cell_x(x),
            self.cell_z(z),
            self.cell_x(x + 1),
            self.cell_z(z + 1),
        );
        let min = floor_div(range.0 - self.bounds.min.y, self.cell_height as int);
        let top = ceil_div(range.1 - self.bounds.min.y, self.cell_height as int);
        SpanData { min: min as u16, max: (if top > min { top } else { min + 1 }) as u16, area }
    }

    /// The heightfield after the triangle was rasterized into cell `(x, z)`:
    /// the cell's span is merged into its column where the triangle reaches
    /// the cell, and nothing changes where it does not.
    pub open spec fn raster_step(self, tri: [IVec3; 3], area: u8, climb: int, x: int, z: int)
        -> HeightfieldView {
        if self.cell_touched(tri, x, z) {
            self.with_span(x, z, self.cell_span(tri, area, x, z), climb)
        } else {
            self
        }
    }

    /// The heightfield after the triangle was rasterized into the first `k`
    /// cells that its bounding box reaches.
    pub open spec fn raster_cells(self, tri: [IVec3; 3], area: u8, climb: int, k: int)
        -> HeightfieldView
        decreases k,
    {
        if k <= 0 {
            self
        } else {
            let cell = self.footprint_cell(tri, k - 1);
            self.raster_cells(tri, area, climb, k - 1).raster_step(tri, area, climb, cell.0, cell.1)
        }
    }

    /// The heightfield after [`Heightfield::rasterize_triangle`], or the
    /// error with which the triangle is refused: it reaches beyond the grid,
    /// its heights do not fit a span, or the arena has no room for one span
    /// in each cell of its bounding box.
    pub open spec fn rasterize_triangle(self, tri: [IVec3; 3], area: u8, climb: int) -> Result<
        HeightfieldView,
        RasterizationError,
    > {
        if !self.holds_footprint(tri) {
            Err(RasterizationError::OutsideGrid)
        } else if !self.holds_heights(tri) {
            Err(RasterizationError::InvalidSpan)
        } else if self.live + self.footprint_cells(tri) > MAX_SPANS {
            Err(RasterizationError::OutOfSpans)
        } else {
            Ok(self.raster_cells(tri, area, climb, self.footprint_cells(tri)))
        }
    }

    /// Whether two heightfields have the same grid.
    pub open spec fn same_grid(self, other: HeightfieldView) -> bool {
        &&& self.width == other.width
        &&& self.depth == other.depth
        &&& self.bounds == other.bounds
        &&& self.cell_size == other.cell_size
        &&& self.cell_height == other.cell_height
        &&& self.columns.len() == other.columns.len()
        &&& self.reserved == other.reserved
    }
}

fn first_cell_of(rel: i64, size: i64) -> (r: i64)
    requires
        size > 0,
        0 <= rel <= 0x2_0000_0000,
    ensures
        r == first_cell(rel as int, size as int),
        0 <= r <= 0x2_0000_0000,
{
    if rel <= 0 {
        0
    } else {
        proof {
            lemma_floor_div(rel - 1, size as int);
            let q = floor_div(rel - 1, size as int);
            assert(0 <= q <= rel) by (nonlinear_arith)
                requires
                    size > 0,
                    rel >= 1,
                    size * q <= rel - 1 < size * q + size,
            ;
        }
        (((rel - 1) as u64) / (size as u64)) as i64
    }
}

fn last_cell_of(rel: i64, size: i64, count: i64) -> (r: i64)
    requires
        size > 0,
        0 <= rel <= 0x2_0000_0000,
        0 <= count <= 0xffff_ffff,
    ensures
        r == last_cell(rel as int, size as int, count as int),
        -1 <= r < count,
        size * r <= rel,
{
    proof {
        lemma_floor_div(rel as int, size as int);
        let q = floor_div(rel as int, size as int);
        assert(0 <= q <= rel) by (nonlinear_arith)
            requires
                size > 0,
                rel >= 0,
                size * q <= rel < size * q + size,
        ;
        if count - 1 <= q {
            assert(size * (count - 1) <= rel) by (nonlinear_arith)
                requires
                    size > 0,
                    count - 1 <= q,
                    size * q <= rel,
            ;
        }
    }
    let q = ((rel as u64) / (size as u64)) as i64;
    if q < count - 1 {
        q
    } else {
        count - 1
    }
}

impl Heightfield {
    /// Rasterizes one triangle: merges into the column of every cell that
    /// the triangle reaches a span over the heights that it has there.
    ///
    /// The cells of the triangle's bounding box are visited row by row; the
    /// heightfield becomes [`HeightfieldView::raster_cells`] of what it was.
    /// On an error nothing changes.
    pub fn rasterize_triangle(&mut self, triangle: [IVec3; 3], area_type: AreaType, walkable_climb: u16)
        -> (r: Result<(), RasterizationError>)
        requires
            old(self).wf(),
            corners_in_range(triangle),
        ensures
            final(self).wf(),
            match old(self)@.rasterize_triangle(triangle, area_type.0, walkable_climb as int) {
                Ok(v) => r.is_ok() && final(self)@ == v,
                Err(e) => r == Err::<(), RasterizationError>(e) && final(self)@ == old(self)@,
            },
    {
        let ghost start = *self;
        proof {
            self.lemma_wf();
        }
        let origin = self.bounds().min;
        let size: i64 = self.cell_size() as i64;
        let height: i64 = self.cell_height() as i64;
        let width: i64 = self.width() as i64;
        let depth: i64 = self.depth() as i64;
        let a = triangle[0];
        let b = triangle[1];
        let c = triangle[2];
        let min_x: i64 = min3(a.x, b.x, c.x) as i64;
        let max_x: i64 = max3(a.x, b.x, c.x) as i64;
        let min_y: i64 = min3(a.y, b.y, c.y) as i64;
        let max_y: i64 = max3(a.y, b.y, c.y) as i64;
        let min_z: i64 = min3(a.z, b.z, c.z) as i64;
        let max_z: i64 = max3(a.z, b.z, c.z) as i64;
        proof {
            lemma_mul_bound(width as int, size as int, 0xffff_ffff, 0x7fff_ffff);
            lemma_mul_bound(depth as int, size as int, 0xffff_ffff, 0x7fff_ffff);
        }
        let end_x: i64 = origin.x as i64 + width * size;
        let end_z: i64 = origin.z as i64 + depth * size;
        if !(origin.x as i64 <= min_x && max_x <= end_x && origin.z as i64 <= min_z && max_z
            <= end_z) {
            return Err(RasterizationError::OutsideGrid);
        }
        if origin.y as i64 > min_y {
            return Err(RasterizationError::InvalidSpan);
        }
        let top_voxel = floor_div_i128((max_y - origin.y as i64) as i128, height as i128);
        if top_voxel >= 0xffff {
            return Err(RasterizationError::InvalidSpan);
        }
        let first_x = first_cell_of(min_x - origin.x as i64, size);
        let last_x = last_cell_of(max_x - origin.x as i64, size, width);
        let first_z = first_cell_of(min_z - origin.z as i64, size);
        let last_z = last_cell_of(max_z - origin.z as i64, size, depth);
        let len_x: i64 = if last_x >= first_x { last_x - first_x + 1 } else { 0 };
        let len_z: i64 = if last_z >= first_z { last_z - first_z + 1 } else { 0 };
        proof {
            lemma_mul_bound(len_x as int, len_z as int, 0x1_0000_0000, 0x1_0000_0000);
            assert(len_x * len_z >= 0) by (nonlinear_arith)
                requires
                    len_x >= 0,
                    len_z >= 0,
            ;
        }
        let cells: u128 = (len_x as u128) * (len_z as u128);
        let live = self.span_count();
        if live as u128 + cells > MAX_SPANS as u128 {
            return Err(RasterizationError::OutOfSpans);
        }
        let normal = cross(a, b, c);
        let count: u64 = cells as u64;
        let mut k: u64 = 0;
        while k < count
            invariant
                self.wf(),
                start.wf(),
                corners_in_range(triangle),
                self@.same_grid(start@),
                self@ == start@.raster_cells(triangle, area_type.0, walkable_climb as int, k as int),
                self@.live <= start@.live + k,
                start@.live + count <= MAX_SPANS,
                0 <= k <= count,
                count == len_x * len_z,
                origin == start@.bounds.min,
                size == start@.cell_size,
                height == start@.cell_height,
                width == start@.width,
                depth == start@.depth,
                size > 0,
                height > 0,
                (first_x as int, len_x as int) == start@.footprint_x(triangle),
                (first_z as int, len_z as int) == start@.footprint_z(triangle),
                0 <= first_x,
                0 <= first_z,
                len_x > 0 ==> first_x + len_x - 1 == last_x,
                len_z > 0 ==> first_z + len_z - 1 == last_z,
                last_x < width,
                last_z < depth,
                size * last_x <= max_x - origin.x,
                size * last_z <= max_z - origin.z,
                max_x <= COORD_MAX,
                max_z <= COORD_MAX,
                start@.holds_heights(triangle),
                min_y == spec_min3(triangle[0].y as int, triangle[1].y as int, triangle[2].y as int),
                max_y == spec_max3(triangle[0].y as int, triangle[1].y as int, triangle[2].y as int),
                (normal.x as int, normal.y as int, normal.z as int) == spec_cross(
                    triangle[0],
                    triangle[1],
                    triangle[2],
                ),
                -NORMAL_MAX <= normal.x <= NORMAL_MAX,
                -NORMAL_MAX <= normal.y <= NORMAL_MAX,
                -NORMAL_MAX <= normal.z <= NORMAL_MAX,
            decreases count - k,
        {
            let ghost before = *self;
            proof {
                assert(len_x > 0) by (nonlinear_arith)
                    requires
                        k < len_x * len_z,
                        len_x >= 0,
                        len_z >= 0,
                ;
                lemma_floor_div(k as int, len_x as int);
                let q = floor_div(k as int, len_x as int);
                assert(0 <= q < len_z) by (nonlinear_arith)
                    requires
                        len_x > 0,
                        0 <= k < len_x * len_z,
                        len_x * q <= k < len_x * q + len_x,
                ;
            }
            let x: i64 = first_x + (k % (len_x as u64)) as i64;
            let z: i64 = first_z + (k / (len_x as u64)) as i64;
            proof {
                lemma_cell_bounds(size as int, x as int, last_x as int, max_x - origin.x);
                lemma_cell_bounds(size as int, z as int, last_z as int, max_z - origin.z);
            }
            let x0: i64 = origin.x as i64 + x * size;
            let z0: i64 = origin.z as i64 + z * size;
            let x1: i64 = x0 + size;
            let z1: i64 = z0 + size;
            proof {
                assert((x + 1) * size == x * size + size) by (nonlinear_arith);
                assert((z + 1) * size == z * size + size) by (nonlinear_arith);
            }
            if is_touched(&triangle, x0, z0, x1, z1) {
                let range = height_range_of(&triangle, normal, x0, z0, x1, z1);
                proof {
                    lemma_height_range_within(triangle, x0 as int, z0 as int, x1 as int, z1 as int);
                    let oy = origin.y as int;
                    let h = height as int;
                    lemma_floor_div_monotone(0, range.0 - oy, h);
                    lemma_floor_div_monotone(range.0 - oy, max_y - oy, h);
                    lemma_floor_div_monotone(range.1 - oy, max_y - oy, h);
                    lemma_ceil_le_floor_plus_one(range.1 - oy, h);
                    lemma_ceil_div_monotone(0, range.1 - oy, h);
                    lemma_floor_div_unique(0, h, 0);
                    assert(ceil_div(0, h) == 0);
                }
                let bottom = floor_div_i128((range.0 as i64 - origin.y as i64) as i128, height as i128);
                let top = ceil_div_i128((range.1 as i64 - origin.y as i64) as i128, height as i128);
                let min: u16 = bottom as u16;
                let max: u16 = if top > bottom { top as u16 } else { (bottom + 1) as u16 };
                let added = self.add_span(x as u32, z as u32, min, max, area_type.0, walkable_climb);
                proof {
                    self.lemma_wf();
                    before.lemma_column_index(x as u32, z as u32);
                    before.lemma_column_within_live(before@.index(x as int, z as int));
                    lemma_merge_insert_len(
                        before@.columns[before@.index(x as int, z as int)],
                        (SpanData { min, max, area: area_type.0 }),
                        walkable_climb as int,
                    );
                    assert(added.is_ok());
                }
            }
            k += 1;
        }
        Ok(())
    }

    /// Inserts the span `[min, max]` with tag `area` into the column of
    /// cell `(x, z)`, fusing it with every span that it overlaps or that
    /// lies within `climb` voxels of it: the column becomes [`merge_insert`]
    /// of what it was. On an error nothing changes.
    pub fn add_span(&mut self, x: u32, z: u32, min: u16, max: u16, area: u8, climb: u16) -> (r:
        Result<(), RasterizationError>)
        requires
            old(self).wf(),
        ensures
            final(self).wf(),
            match old(self)@.add_span(x, z, (SpanData { min, max, area }), climb as int) {
                Ok(v) => r.is_ok() && final(self)@ == v,
                Err(e) => r == Err::<(), RasterizationError>(e) && final(self)@ == old(self)@,
            },
            r.is_ok() ==> ascending(final(self)@.columns[old(self)@.index(x as int, z as int)]),
    {
        proof {
            self.lemma_wf();
        }
        if x >= self.width() || z >= self.depth() {
            return Err(RasterizationError::OutsideGrid);
        }
        if min >= max {
            return Err(RasterizationError::InvalidSpan);
        }
        let c = self.column_index(x, z);
        let ghost start = *self;
        let ghost ci = c as int;
        let ghost new0 = SpanData { min, max, area };
        let ghost target = merge_insert(start.column(ci), new0, climb as int);
        let mut acc = SpanData { min, max, area };
        let mut prev: Option<SpanKey> = None;
        let mut cur = self.head(c);
        let ghost mut j: int = 0;
        let mut walking = true;
        proof {
            start.lemma_wf();
            assert(start.column(ci).take(0) + merge_insert(start.column(ci).skip(0), acc, climb as int)
                =~= target) by {
                assert(start.column(ci).skip(0) =~= start.column(ci));
            }
        }
        while walking
            invariant
                self.wf(),
                self.same_shape(&start),
                self.same_but(&start, ci),
                start.wf(),
                ci == c as int,
                0 <= ci < self.num_columns(),
                0 <= j <= self.keys(ci).len(),
                self.keys(ci).len() == self.column(ci).len(),
                cur == self.key_at(ci, j),
                prev == self.key_at(ci, j - 1),
                acc.min < acc.max,
                j > 0 ==> self.column(ci)[j - 1].max < acc.min,
                target == self.column(ci).take(j) + merge_insert(
                    self.column(ci).skip(j),
                    acc,
                    climb as int,
                ),
                target == merge_insert(start.column(ci), new0, climb as int),
                self.live() <= start.live(),
                self.column(ci).len() == start.column(ci).len() - (start.live() - self.live()),
                self.live() == start.live() ==> self.column(ci) == start.column(ci) && self.keys(ci)
                    == start.keys(ci),
                !walking ==> j == self.keys(ci).len() || self.column(ci)[j].min > acc.max + climb,
            decreases self.keys(ci).len() - j + (if walking { 1int } else { 0int }),
        {
            let ghost col = self.column(ci);
            match cur {
                None => {
                    walking = false;
                },
                Some(k) => {
                    let s = self.load(k, Ghost(ci), Ghost(j));
                    proof {
                        assert(col.skip(j)[0] == col[j]);
                    }
                    if s.min() as u32 > acc.max as u32 + climb as u32 {
                        walking = false;
                    } else if (s.max() as u32 + climb as u32) < acc.min as u32 {
                        proof {
                            assert(col.take(j + 1) =~= col.take(j) + seq![col[j]]);
                            assert(col.skip(j).skip(1) =~= col.skip(j + 1));
                            assert(target =~= col.take(j + 1) + merge_insert(
                                col.skip(j + 1),
                                acc,
                                climb as int,
                            ));
                            j = j + 1;
                        }
                        prev = cur;
                        cur = s.next();
                    } else {
                        let next = s.next();
                        let ghost before = *self;
                        self.unlink(c, prev, k, Ghost(j));
                        acc =
                        SpanData {
                            min: if acc.min <= s.min() { acc.min } else { s.min() },
                            max: if acc.max >= s.max() { acc.max } else { s.max() },
                            area: if acc.area >= s.area() { acc.area } else { s.area() },
                        };
                        cur = next;
                        proof {
                            self.lemma_wf();
                            self.lemma_same_but_trans(&before, &start, ci);
                            let col2 = self.column(ci);
                            assert(col2 == col.remove(j));
                            assert(col2.take(j) =~= col.take(j));
                            assert(col2.skip(j) =~= col.skip(j).skip(1));
                            assert(self.keys(ci) == before.keys(ci).remove(j));
                            if j > 0 {
                                before.lemma_wf();
                                assert(col2[j - 1] == col[j - 1]);
                                assert(col[j - 1].max < col[j].min);
                            }
                        }
                    }
                },
            }
        }
        proof {
            let col = self.column(ci);
            if j < col.len() {
                assert(col.skip(j)[0] == col[j]);
            }
            assert(merge_insert(col.skip(j), acc, climb as int) =~= seq![acc] + col.skip(j));
            assert(target =~= col.insert(j, acc));
        }
        let ghost after_walk = *self;
        let linked = self.link(c, prev, cur, acc, Ghost(j));
        if linked {
            proof {
                self.lemma_wf();
                self.lemma_same_but_trans(&after_walk, &start, ci);
                let goal = start@.add_span(x, z, new0, climb as int).unwrap();
                assert forall|d: int| 0 <= d < self.num_columns() implies self@.columns[d]
                    == goal.columns[d] by {
                    assert(self.column(d) == self@.columns[d]);
                    if d != ci {
                        assert(self.column(d) == start.column(d));
                    }
                }
                assert(self@.columns =~= goal.columns);
                assert(self@ =~= goal);
                assert(self@.columns[ci] == self.column(ci));
            }
            Ok(())
        } else {
            proof {
                assert(self.grid() =~= start.grid()) by {
                    assert forall|d: int| 0 <= d < self.num_columns() implies self.column(d)
                        == start.column(d) by {
                        if d != ci {
                            assert(self.column(d) == after_walk.column(d));
                            assert(after_walk.column(d) == start.column(d));
                        }
                    }
                }
                assert(self@ =~= start@);
            }
            Err(RasterizationError::OutOfSpans)
        }
    }
}

} // verus!
