//! The heightfield: a grid of columns whose spans live in one arena.

use vstd::prelude::*;
use crate::arena::{Spans, MAX_SPANS};
use crate::arith::{ceil_div, ceil_div_i128, lemma_ceil_div};
use crate::column::{
    ascending,
    lemma_insert_ascending,
    lemma_remove_ascending,
    lemma_total_spans_of_empty,
    lemma_total_spans_update,
    total_spans,
};
use crate::math::Aabb3d;
use crate::span::{Span, SpanBuilder, SpanData, SpanKey};

verus! {

broadcast use crate::arena::Spans::lemma_wf_finite;

/// A grid of `width` by `depth` columns over the horizontal plane. Each
/// column is a chain of spans in ascending order, linked through the arena.
pub struct Heightfield {
    width: u32,
    depth: u32,
    bounds: Aabb3d,
    cell_size: i32,
    cell_height: i32,
    /// Head of each column's chain, at index `x + z * width`.
    columns: Vec<Option<SpanKey>>,
    spans: Spans,
    /// The handles of each column's chain, bottom to top.
    chains: Ghost<Seq<Seq<SpanKey>>>,
    /// The column that each linked handle belongs to.
    owner: Ghost<Map<SpanKey, int>>,
}

/// What a heightfield is to its users: the grid's geometry, the spans of
/// every column from the bottom up, and how many spans its arena holds and
/// was created with room for.
#[verifier::ext_equal]
pub struct HeightfieldView {
    pub width: u32,
    pub depth: u32,
    pub bounds: Aabb3d,
    pub cell_size: i32,
    pub cell_height: i32,
    /// The column of cell `(x, z)` stands at index `x + z * width`.
    pub columns: Seq<Seq<SpanData>>,
    /// Number of spans that the arena holds.
    pub live: nat,
    /// Number of spans for which the arena was created with room.
    pub reserved: nat,
}

impl HeightfieldView {
    /// Index of the column of cell `(x, z)`.
    pub open spec fn index(self, x: int, z: int) -> int {
        x + z * self.width
    }

    /// Whether the grid has a cell `(x, z)`.
    pub open spec fn has_cell(self, x: int, z: int) -> bool {
        0 <= x < self.width && 0 <= z < self.depth
    }

    /// The same heightfield with other columns.
    pub open spec fn with_columns(self, columns: Seq<Seq<SpanData>>) -> HeightfieldView {
        HeightfieldView { columns, ..self }
    }
}

impl View for Heightfield {
    type V = HeightfieldView;

    closed spec fn view(&self) -> HeightfieldView {
        HeightfieldView {
            width: self.width,
            depth: self.depth,
            bounds: self.bounds,
            cell_size: self.cell_size,
            cell_height: self.cell_height,
            columns: self.grid(),
            live: self.live(),
            reserved: self.reserved(),
        }
    }
}

/// Number of cells of the given size that cover an extent: the quotient
/// rounded up, and one cell at least.
pub open spec fn cells_to_cover(extent: int, size: int) -> int {
    if ceil_div(extent, size) < 1 {
        1
    } else {
        ceil_div(extent, size)
    }
}

/// Computes [`cells_to_cover`] for an extent between two coordinates.
fn cells_between(min: i32, max: i32, size: i32) -> (n: u32)
    requires
        min <= max,
        size > 0,
    ensures
        n == cells_to_cover(max - min, size as int),
{
    let extent: i128 = max as i128 - min as i128;
    let cells = ceil_div_i128(extent, size as i128);
    proof {
        lemma_ceil_div(extent as int, size as int);
        assert(cells <= extent) by (nonlinear_arith)
            requires
                size * cells - size < extent,
                size >= 1,
                extent >= 0,
        ;
    }
    if cells < 1 {
        1
    } else {
        cells as u32
    }
}

impl Heightfield {
    /// The view is made of the geometry, the columns and the number of spans.
    pub broadcast proof fn lemma_view(&self)
        ensures
            (#[trigger] self@).width == self.spec_width(),
            self@.depth == self.spec_depth(),
            self@.bounds == self.spec_bounds(),
            self@.cell_size == self.spec_cell_size(),
            self@.cell_height == self.spec_cell_height(),
            self@.columns == self.grid(),
            self@.live == self.live(),
            self@.reserved == self.reserved(),
    {
    }

    /// Number of columns along X.
    pub closed spec fn spec_width(&self) -> u32 {
        self.width
    }

    /// Number of columns along Z.
    pub closed spec fn spec_depth(&self) -> u32 {
        self.depth
    }

    /// The box in space that the grid was laid out for. Its minimum is the
    /// grid's origin.
    pub closed spec fn spec_bounds(&self) -> Aabb3d {
        self.bounds
    }

    /// Edge length of a cell, in fixed-point units.
    pub closed spec fn spec_cell_size(&self) -> i32 {
        self.cell_size
    }

    /// Height of a voxel, in fixed-point units.
    pub closed spec fn spec_cell_height(&self) -> i32 {
        self.cell_height
    }

    /// Number of columns.
    pub closed spec fn num_columns(&self) -> int {
        self.chains@.len() as int
    }

    /// The handles of a column's spans, bottom to top.
    pub closed spec fn keys(&self, c: int) -> Seq<SpanKey> {
        self.chains@[c]
    }

    /// The spans of a column, bottom to top.
    pub closed spec fn column(&self, c: int) -> Seq<SpanData> {
        Seq::new(self.chains@[c].len(), |j: int| self.spans@[self.chains@[c][j]].data())
    }

    /// All columns.
    pub open spec fn grid(&self) -> Seq<Seq<SpanData>> {
        Seq::new(self.num_columns() as nat, |c: int| self.column(c))
    }

    /// Number of spans that the arena holds.
    pub closed spec fn live(&self) -> nat {
        self.spans@.dom().len()
    }

    /// Number of spans for which the arena was created with room.
    pub closed spec fn reserved(&self) -> nat {
        self.spans.floor()
    }

    /// The handle at a position of a column's chain, if there is one.
    pub open spec fn key_at(&self, c: int, j: int) -> Option<SpanKey> {
        if 0 <= j < self.keys(c).len() {
            Some(self.keys(c)[j])
        } else {
            None
        }
    }

    spec fn link_ok(&self, c: int, j: int) -> bool {
        let k = self.chains@[c][j];
        &&& k.is_issued()
        &&& self.spans@.dom().contains(k)
        &&& self.owner@.dom().contains(k)
        &&& self.owner@[k] == c
        &&& self.spans@[k].spec_next() == self.key_at(c, j + 1)
    }

    /// Whether the handle stands in the chain of the column that owns it.
    spec fn linked(&self, k: SpanKey) -> bool {
        &&& self.owner@.dom().contains(k)
        &&& 0 <= self.owner@[k] < self.chains@.len()
        &&& self.chains@[self.owner@[k]].contains(k)
    }

    spec fn chain_ok(&self, c: int) -> bool {
        &&& self.columns@[c] == self.key_at(c, 0)
        &&& forall|j: int| 0 <= j < self.chains@[c].len() ==> #[trigger] self.link_ok(c, j)
        &&& ascending(self.column(c))
    }

    /// The invariant of a heightfield: the grid has `width * depth` columns,
    /// cells have positive size, every column is an ascending chain of
    /// live spans that no other column shares, and the arena holds the
    /// spans of the columns and no others.
    pub closed spec fn wf(&self) -> bool {
        &&& self.spans.wf()
        &&& self.spans@.dom().len() <= MAX_SPANS
        &&& self.cell_size > 0
        &&& self.cell_height > 0
        &&& self.columns@.len() == self.width as int * self.depth as int
        &&& self.columns@.len() < usize::MAX
        &&& self.chains@.len() == self.columns@.len()
        &&& forall|c: int| 0 <= c < self.chains@.len() ==> #[trigger] self.chain_ok(c)
        &&& forall|k: SpanKey| self.spans@.dom().contains(k) ==> #[trigger] self.linked(k)
        &&& self.spans@.dom().len() == total_spans(self.grid())
    }

    /// Whether two heightfields have the same grid geometry.
    pub open spec fn same_shape(&self, other: &Heightfield) -> bool {
        &&& self.spec_width() == other.spec_width()
        &&& self.spec_depth() == other.spec_depth()
        &&& self.spec_bounds() == other.spec_bounds()
        &&& self.spec_cell_size() == other.spec_cell_size()
        &&& self.spec_cell_height() == other.spec_cell_height()
        &&& self.num_columns() == other.num_columns()
        &&& self.reserved() == other.reserved()
    }

    /// Whether every column but `c` is the same in both heightfields.
    pub open spec fn same_but(&self, other: &Heightfield, c: int) -> bool {
        forall|d: int|
            0 <= d < self.num_columns() && d != c ==> #[trigger] self.column(d) == other.column(d)
                && self.keys(d) == other.keys(d)
    }

    /// What the invariant says of the grid: it has a column for each cell,
    /// cells have a size, every column ascends without overlap, and the
    /// arena holds as many spans as the columns have.
    pub proof fn lemma_wf(&self)
        requires
            self.wf(),
        ensures
            self.num_columns() == self.spec_width() as int * self.spec_depth() as int,
            self.spec_cell_size() > 0,
            self.spec_cell_height() > 0,
            self.live() <= MAX_SPANS,
            self.live() == total_spans(self@.columns),
            self@.columns.len() == self.num_columns(),
            self.num_columns() < usize::MAX,
            forall|c: int|
                0 <= c < self.num_columns() ==> #[trigger] self.column(c).len() == self.keys(c).len(),
            forall|c: int| 0 <= c < self.num_columns() ==> ascending(#[trigger] self.column(c)),
            forall|c: int|
                0 <= c < self@.columns.len() ==> ascending(#[trigger] self@.columns[c]),
    {
        assert forall|c: int| 0 <= c < self.num_columns() implies ascending(
            #[trigger] self.column(c),
        ) by {
            assert(self.chain_ok(c));
        }
        assert forall|c: int| 0 <= c < self@.columns.len() implies ascending(
            #[trigger] self@.columns[c],
        ) by {
            assert(self@.columns[c] == self.column(c));
        }
    }

    /// Columns that two changes both left alone are the same before and after.
    pub proof fn lemma_same_but_trans(&self, mid: &Heightfield, first: &Heightfield, c: int)
        requires
            self.same_but(mid, c),
            mid.same_but(first, c),
            self.num_columns() == mid.num_columns(),
        ensures
            self.same_but(first, c),
    {
        assert forall|d: int| 0 <= d < self.num_columns() && d != c implies #[trigger] self.column(
            d,
        ) == first.column(d) && self.keys(d) == first.keys(d) by {
            assert(self.column(d) == mid.column(d));
            assert(mid.column(d) == first.column(d));
        }
    }

    /// A column has no more spans than the arena holds.
    pub proof fn lemma_column_within_live(&self, c: int)
        requires
            self.wf(),
            0 <= c < self.num_columns(),
        ensures
            self.column(c).len() <= self.live(),
    {
        assert(self.grid()[c] == self.column(c));
        lemma_total_spans_update(self.grid(), c, self.column(c));
    }

    /// Where a change left every column but `c` alone, the number of spans
    /// in the columns has changed as the length of column `c` has.
    proof fn lemma_grid_after(&self, after: &Heightfield, c: int)
        requires
            0 <= c < self.num_columns(),
            after.num_columns() == self.num_columns(),
            forall|d: int|
                0 <= d < self.num_columns() && d != c ==> #[trigger] after.column(d)
                    == self.column(d),
        ensures
            total_spans(after.grid()) == total_spans(self.grid()) + after.column(c).len()
                - self.column(c).len(),
    {
        assert(after.grid() =~= self.grid().update(c, after.column(c)));
        lemma_total_spans_update(self.grid(), c, after.column(c));
    }

    /// The handles of a column are pairwise different.
    proof fn lemma_keys_distinct(&self, c: int, i: int, j: int)
        requires
            self.wf(),
            0 <= c < self.num_columns(),
            0 <= i < self.keys(c).len(),
            0 <= j < self.keys(c).len(),
            i != j,
        ensures
            self.keys(c)[i] != self.keys(c)[j],
    {
        assert(self.chain_ok(c));
        let col = self.column(c);
        if self.keys(c)[i] == self.keys(c)[j] {
            assert(col[i] == col[j]);
            if i < j {
                assert(col[i].max < col[j].min);
            } else {
                assert(col[j].max < col[i].min);
            }
            assert(col[i].min < col[i].max);
        }
    }

    /// A handle of one column is no handle of another.
    proof fn lemma_keys_disjoint(&self, c: int, i: int, d: int, j: int)
        requires
            self.wf(),
            0 <= c < self.num_columns(),
            0 <= d < self.num_columns(),
            0 <= i < self.keys(c).len(),
            0 <= j < self.keys(d).len(),
            c != d,
        ensures
            self.keys(c)[i] != self.keys(d)[j],
    {
        assert(self.chain_ok(c));
        assert(self.chain_ok(d));
        assert(self.link_ok(c, i));
        assert(self.link_ok(d, j));
    }

    /// An empty heightfield of `width` by `depth` columns, or `None` where a
    /// cell would have no size or the grid has more columns than fit in
    /// memory. Its arena has room for one span in each column, and for
    /// [`Spans::DEFAULT_CAPACITY`] spans at least.
    pub fn new(width: u32, depth: u32, bounds: Aabb3d, cell_size: i32, cell_height: i32) -> (r:
        Option<Heightfield>)
        ensures
            r.is_some() <==> cell_size > 0 && cell_height > 0 && (width as int) * (depth as int)
                < usize::MAX,
            r matches Some(hf) ==> {
                &&& hf.wf()
                &&& hf.spec_width() == width
                &&& hf.spec_depth() == depth
                &&& hf.spec_bounds() == bounds
                &&& hf.spec_cell_size() == cell_size
                &&& hf.spec_cell_height() == cell_height
                &&& hf.live() == 0
                &&& hf.reserved() == (if width * depth >= 1024 { width * depth } else { 1024 })
                &&& forall|c: int| 0 <= c < hf.num_columns() ==> #[trigger] hf.column(c) == Seq::<
                    SpanData,
                >::empty()
            },
    {
        if cell_size <= 0 || cell_height <= 0 {
            return None;
        }
        assert((width as int) * (depth as int) <= 0xffff_ffff * 0xffff_ffff) by (nonlinear_arith)
            requires
                0 <= width <= 0xffff_ffff,
                0 <= depth <= 0xffff_ffff,
        ;
        let cells: u64 = (width as u64) * (depth as u64);
        if cells >= usize::MAX as u64 {
            return None;
        }
        let n: usize = cells as usize;
        let mut columns: Vec<Option<SpanKey>> = Vec::new();
        let mut i: usize = 0;
        while i < n
            invariant
                i <= n,
                columns@.len() == i,
                forall|k: int| 0 <= k < i ==> (#[trigger] columns@[k]).is_none(),
            decreases n - i,
        {
            columns.push(None);
            i += 1;
        }
        let spans = Spans::with_min_capacity(n);
        let hf = Heightfield {
            width,
            depth,
            bounds,
            cell_size,
            cell_height,
            columns,
            spans,
            chains: Ghost(Seq::new(n as nat, |c: int| Seq::<SpanKey>::empty())),
            owner: Ghost(Map::empty()),
        };
        proof {
            assert forall|c: int| 0 <= c < hf.chains@.len() implies #[trigger] hf.chain_ok(c) by {
                assert(hf.column(c) =~= Seq::<SpanData>::empty());
            }
            assert forall|c: int| 0 <= c < hf.num_columns() implies #[trigger] hf.column(c) == Seq::<
                SpanData,
            >::empty() by {
                assert(hf.column(c) =~= Seq::<SpanData>::empty());
            }
            assert forall|c: int| 0 <= c < hf.grid().len() implies (#[trigger] hf.grid()[c]).len()
                == 0 by {
                assert(hf.grid()[c] == hf.column(c));
            }
            lemma_total_spans_of_empty(hf.grid());
        }
        Some(hf)
    }

    /// An empty heightfield laid out over a box: as many cells along X and
    /// along Z as cover the box, and one at least. `None` where the box is
    /// turned inside out along X or Z, where a cell would have no size, or
    /// where the grid has more columns than fit in memory.
    pub fn with_bounds(bounds: Aabb3d, cell_size: i32, cell_height: i32) -> (r: Option<Heightfield>)
        ensures
            r.is_some() <==> cell_size > 0 && cell_height > 0 && bounds.min.x <= bounds.max.x
                && bounds.min.z <= bounds.max.z && cells_to_cover(
                bounds.max.x - bounds.min.x,
                cell_size as int,
            ) * cells_to_cover(bounds.max.z - bounds.min.z, cell_size as int) < usize::MAX,
            r matches Some(hf) ==> {
                &&& hf.wf()
                &&& hf@.width == cells_to_cover(bounds.max.x - bounds.min.x, cell_size as int)
                &&& hf@.depth == cells_to_cover(bounds.max.z - bounds.min.z, cell_size as int)
                &&& hf@.bounds == bounds
                &&& hf@.cell_size == cell_size
                &&& hf@.cell_height == cell_height
                &&& hf@.live == 0
                &&& hf@.reserved == (if hf@.width * hf@.depth >= 1024 {
                    hf@.width * hf@.depth
                } else {
                    1024
                })
                &&& forall|c: int|
                    0 <= c < hf@.columns.len() ==> #[trigger] hf@.columns[c] == Seq::<
                        SpanData,
                    >::empty()
            },
    {
        if cell_size <= 0 || cell_height <= 0 || bounds.min.x > bounds.max.x || bounds.min.z
            > bounds.max.z {
            return None;
        }
        let width = cells_between(bounds.min.x, bounds.max.x, cell_size);
        let depth = cells_between(bounds.min.z, bounds.max.z, cell_size);
        let r = Heightfield::new(width, depth, bounds, cell_size, cell_height);
        proof {
            if r.is_some() {
                let hf = r.unwrap();
                hf.lemma_wf();
                assert forall|c: int| 0 <= c < hf@.columns.len() implies #[trigger] hf@.columns[c]
                    == Seq::<SpanData>::empty() by {
                    assert(hf@.columns[c] == hf.column(c));
                }
            }
        }
        r
    }

    #[verifier::when_used_as_spec(spec_width)]
    pub fn width(&self) -> (r: u32)
        ensures
            r == self.spec_width(),
    {
        self.width
    }

    #[verifier::when_used_as_spec(spec_depth)]
    pub fn depth(&self) -> (r: u32)
        ensures
            r == self.spec_depth(),
    {
        self.depth
    }

    #[verifier::when_used_as_spec(spec_bounds)]
    pub fn bounds(&self) -> (r: Aabb3d)
        ensures
            r == self.spec_bounds(),
    {
        self.bounds
    }

    #[verifier::when_used_as_spec(spec_cell_size)]
    pub fn cell_size(&self) -> (r: i32)
        ensures
            r == self.spec_cell_size(),
    {
        self.cell_size
    }

    #[verifier::when_used_as_spec(spec_cell_height)]
    pub fn cell_height(&self) -> (r: i32)
        ensures
            r == self.spec_cell_height(),
    {
        self.cell_height
    }

    /// Number of spans in the arena.
    pub fn span_count(&self) -> (n: usize)
        requires
            self.wf(),
        ensures
            n == self.live(),
    {
        self.spans.len()
    }

    /// Number of spans that the arena holds without growing.
    pub fn span_capacity(&self) -> (n: usize)
        requires
            self.wf(),
        ensures
            n >= self.reserved(),
    {
        self.spans.capacity()
    }

    /// Number of columns of the grid.
    pub fn column_count(&self) -> (n: usize)
        requires
            self.wf(),
        ensures
            n == self.num_columns(),
    {
        self.columns.len()
    }

    /// Index of the column of cell `(x, z)`.
    pub open spec fn spec_column_index(&self, x: u32, z: u32) -> int {
        x as int + z as int * self.spec_width() as int
    }

    /// In a well-formed heightfield every cell of the grid has a column.
    pub proof fn lemma_column_index(&self, x: u32, z: u32)
        requires
            self.wf(),
            x < self.spec_width(),
            z < self.spec_depth(),
        ensures
            0 <= self.spec_column_index(x, z) < self.num_columns(),
            self.num_columns() < usize::MAX,
    {
        let w = self.width as int;
        let d = self.depth as int;
        assert(z as int * w + w <= d * w) by (nonlinear_arith)
            requires
                0 <= z < d,
                0 <= w,
        ;
        assert(0 <= z as int * w) by (nonlinear_arith)
            requires
                0 <= z,
                0 <= w,
        ;
        assert(d * w == w * d) by (nonlinear_arith);
    }

    /// Index of the column of cell `(x, z)`.
    pub fn column_index(&self, x: u32, z: u32) -> (c: usize)
        requires
            self.wf(),
            x < self.spec_width(),
            z < self.spec_depth(),
        ensures
            c == self.spec_column_index(x, z),
            c < self.num_columns(),
    {
        proof {
            self.lemma_column_index(x, z);
            assert(0 <= z as int * self.width as int) by (nonlinear_arith)
                requires
                    0 <= z,
                    0 <= self.width,
            ;
        }
        let c: u64 = (z as u64) * (self.width as u64) + (x as u64);
        c as usize
    }

    /// The handle of the lowest span of column `c`.
    pub fn head(&self, c: usize) -> (r: Option<SpanKey>)
        requires
            self.wf(),
            c < self.num_columns(),
        ensures
            r == self.key_at(c as int, 0),
    {
        assert(self.chain_ok(c as int));
        self.columns[c]
    }

    /// The handle of the lowest span of cell `(x, z)`, or `None` for an
    /// empty column and for a cell that the grid does not have.
    pub fn span_key_at(&self, x: u32, z: u32) -> (r: Option<SpanKey>)
        requires
            self.wf(),
        ensures
            r == (if x < self.spec_width() && z < self.spec_depth() {
                self.key_at(self.spec_column_index(x, z), 0)
            } else {
                None
            }),
    {
        if x < self.width && z < self.depth {
            let c = self.column_index(x, z);
            self.head(c)
        } else {
            None
        }
    }

    /// The span that the arena holds under a handle, if it holds one.
    pub closed spec fn spec_span(&self, key: SpanKey) -> Option<Span> {
        if self.spans@.dom().contains(key) && key.is_issued() {
            Some(self.spans@[key])
        } else {
            None
        }
    }

    /// Under the handle at position `j` of a column the arena holds the
    /// span at that position, linked to the handle at the next position.
    pub proof fn lemma_span_of_key(&self, c: int, j: int)
        requires
            self.wf(),
            0 <= c < self.num_columns(),
            0 <= j < self.keys(c).len(),
        ensures
            self.spec_span(self.keys(c)[j]) matches Some(s) && s.data() == self.column(c)[j]
                && s.spec_next() == self.key_at(c, j + 1),
    {
        assert(self.chain_ok(c));
        assert(self.link_ok(c, j));
    }

    /// The arena holds no span but those of the columns: a handle under
    /// which it holds a span stands in some column.
    pub proof fn lemma_span_is_linked(&self, key: SpanKey)
        requires
            self.wf(),
            self.spec_span(key).is_some(),
        ensures
            exists|c: int, j: int|
                0 <= c < self.num_columns() && 0 <= j < self.keys(c).len() && #[trigger] self.keys(
                    c,
                )[j] == key,
    {
        assert(self.linked(key));
        let c = self.owner@[key];
        let j = choose|j: int| 0 <= j < self.chains@[c].len() && self.chains@[c][j] == key;
        assert(self.keys(c)[j] == key);
    }

    /// The span under a handle, or `None` for a handle that is stale or was
    /// never issued.
    pub fn span(&self, key: SpanKey) -> (r: Option<Span>)
        requires
            self.wf(),
        ensures
            r == self.spec_span(key),
    {
        self.spans.get(key)
    }

    /// The spans of cell `(x, z)`, bottom to top; none for a cell that the
    /// grid does not have.
    pub fn column_spans(&self, x: u32, z: u32) -> (r: Vec<SpanData>)
        requires
            self.wf(),
        ensures
            r@ == (if self@.has_cell(x as int, z as int) {
                self@.columns[self@.index(x as int, z as int)]
            } else {
                Seq::empty()
            }),
    {
        if x >= self.width || z >= self.depth {
            return Vec::new();
        }
        let c = self.column_index(x, z);
        let ghost ci = c as int;
        let mut out: Vec<SpanData> = Vec::new();
        let mut cur = self.head(c);
        let ghost mut j: int = 0;
        proof {
            self.lemma_wf();
        }
        while cur.is_some()
            invariant
                self.wf(),
                ci == c as int,
                0 <= ci < self.num_columns(),
                0 <= j <= self.keys(ci).len(),
                self.keys(ci).len() == self.column(ci).len(),
                cur == self.key_at(ci, j),
                out@ == self.column(ci).take(j),
            decreases self.keys(ci).len() - j,
        {
            let s = self.load(cur.unwrap(), Ghost(ci), Ghost(j));
            out.push(SpanData { min: s.min(), max: s.max(), area: s.area() });
            cur = s.next();
            proof {
                assert(self.column(ci).take(j + 1) =~= self.column(ci).take(j).push(
                    self.column(ci)[j],
                ));
                j = j + 1;
            }
        }
        proof {
            assert(self.column(ci).take(j) =~= self.column(ci));
        }
        out
    }

    /// The span under the handle at position `j` of column `c`.
    pub(crate) fn load(&self, key: SpanKey, Ghost(c): Ghost<int>, Ghost(j): Ghost<int>) -> (r: Span)
        requires
            self.wf(),
            0 <= c < self.num_columns(),
            self.key_at(c, j) == Some(key),
        ensures
            r.data() == self.column(c)[j],
            r.spec_next() == self.key_at(c, j + 1),
    {
        assert(self.chain_ok(c));
        assert(self.link_ok(c, j));
        let r = self.spans.get(key);
        r.unwrap()
    }

    /// Gives the span at position `j` of column `c` another area tag.
    pub(crate) fn retag(&mut self, c: usize, key: SpanKey, Ghost(j): Ghost<int>, area: u8)
        requires
            old(self).wf(),
            c < old(self).num_columns(),
            old(self).key_at(c as int, j) == Some(key),
        ensures
            final(self).wf(),
            final(self).same_shape(old(self)),
            final(self).same_but(old(self), c as int),
            final(self).live() == old(self).live(),
            final(self).keys(c as int) == old(self).keys(c as int),
            final(self).column(c as int) == old(self).column(c as int).update(
                j,
                (SpanData { area, ..old(self).column(c as int)[j] }),
            ),
    {
        let ghost before = *self;
        let ghost ci = c as int;
        assert(self.chain_ok(ci));
        assert(self.link_ok(ci, j));
        let mut s = self.load(key, Ghost(ci), Ghost(j));
        s.set_area(area);
        let done = self.spans.set(key, s);
        proof {
            assert(done);
            assert(self.spans@.dom() =~= before.spans@.dom());
            assert forall|d: int| 0 <= d < self.chains@.len() implies #[trigger] self.chain_ok(
                d,
            ) by {
                assert(before.chain_ok(d));
                assert forall|i: int| 0 <= i < self.chains@[d].len() implies #[trigger] self.link_ok(
                    d,
                    i,
                ) by {
                    assert(before.link_ok(d, i));
                }
                if d != ci {
                    assert forall|i: int| 0 <= i < self.chains@[d].len() implies self.chains@[d][i]
                        != key by {
                        before.lemma_keys_disjoint(d, i, ci, j);
                    }
                    assert(self.column(d) =~= before.column(d));
                } else {
                    assert forall|i: int| 0 <= i < self.chains@[d].len() && i != j implies self.chains@[d][i]
                        != key by {
                        before.lemma_keys_distinct(d, i, j);
                    }
                    assert(self.column(d) =~= before.column(d).update(
                        j,
                        (SpanData { area, ..before.column(d)[j] }),
                    ));
                }
            }
            assert(self.column(ci) =~= before.column(ci).update(
                j,
                (SpanData { area, ..before.column(ci)[j] }),
            ));
            assert forall|k: SpanKey| self.spans@.dom().contains(k) implies #[trigger] self.linked(
                k,
            ) by {
                assert(before.linked(k));
            }
            assert forall|d: int| 0 <= d < self.num_columns() && d != ci implies #[trigger] self.column(
                d,
            ) == before.column(d) && self.keys(d) == before.keys(d) by {
                assert forall|i: int| 0 <= i < self.chains@[d].len() implies self.chains@[d][i]
                    != key by {
                    before.lemma_keys_disjoint(d, i, ci, j);
                }
                assert(self.column(d) =~= before.column(d));
            }
            before.lemma_grid_after(self, ci);
        }
    }

    /// Takes the span at position `j` of column `c` out of its chain and
    /// out of the arena. `prev` is the handle below it, if there is one.
    pub(crate) fn unlink(&mut self, c: usize, prev: Option<SpanKey>, key: SpanKey, Ghost(j): Ghost<int>)
        requires
            old(self).wf(),
            c < old(self).num_columns(),
            old(self).key_at(c as int, j) == Some(key),
            prev == old(self).key_at(c as int, j - 1),
        ensures
            final(self).wf(),
            final(self).same_shape(old(self)),
            final(self).same_but(old(self), c as int),
            final(self).live() == old(self).live() - 1,
            final(self).keys(c as int) == old(self).keys(c as int).remove(j),
            final(self).column(c as int) == old(self).column(c as int).remove(j),
    {
        let ghost before = *self;
        let ghost ci = c as int;
        let ghost ks = self.chains@[ci];
        assert(self.chain_ok(ci));
        assert(self.link_ok(ci, j));
        let s = self.load(key, Ghost(ci), Ghost(j));
        let next = s.next();
        match prev {
            Some(pk) => {
                assert(self.link_ok(ci, j - 1));
                let mut p = self.load(pk, Ghost(ci), Ghost(j - 1));
                p.set_next(next);
                let done = self.spans.set(pk, p);
                assert(done);
            },
            None => {
                self.columns.set(c, next);
            },
        }
        proof {
            if j > 0 {
                before.lemma_keys_distinct(ci, j - 1, j);
            }
        }
        let gone = self.spans.remove(key);
        assert(gone.is_some());
        self.chains = Ghost(self.chains@.update(ci, ks.remove(j)));
        self.owner = Ghost(self.owner@.remove(key));
        proof {
            let ks2 = ks.remove(j);
            assert(self.chains@[ci] == ks2);
            assert forall|i: int| 0 <= i < ks2.len() implies ks2[i] == ks[if i < j { i } else { i + 1 }]
                && ks2[i] != key by {
                let i0 = if i < j { i } else { i + 1 };
                before.lemma_keys_distinct(ci, i0, j);
            }
            assert forall|d: int, i: int|
                0 <= d < self.chains@.len() && d != ci && 0 <= i < self.chains@[d].len() implies (
            #[trigger] self.chains@[d][i]) != key && (prev.is_some() ==> self.chains@[d][i]
                != prev.unwrap()) by {
                before.lemma_keys_disjoint(d, i, ci, j);
                if j > 0 {
                    before.lemma_keys_disjoint(d, i, ci, j - 1);
                }
            }
            assert(self.column(ci) =~= before.column(ci).remove(j)) by {
                assert forall|i: int| 0 <= i < ks2.len() implies self.column(ci)[i]
                    == before.column(ci).remove(j)[i] by {
                    let i0 = if i < j { i } else { i + 1 };
                    assert(ks2[i] == ks[i0]);
                    assert(before.link_ok(ci, i0));
                    assert(before.column(ci).remove(j)[i] == before.column(ci)[i0]);
                }
            }
            lemma_remove_ascending(before.column(ci), j);
            assert forall|k: SpanKey| self.spans@.dom().contains(k) implies #[trigger] self.linked(
                k,
            ) by {
                assert(before.linked(k));
                let d = before.owner@[k];
                let i = choose|i: int|
                    0 <= i < before.chains@[d].len() && before.chains@[d][i] == k;
                if d == ci {
                    let i2 = if i < j { i } else { i - 1 };
                    assert(ks2[i2] == k);
                } else {
                    assert(self.chains@[d][i] == k);
                }
            }
            assert forall|d: int| 0 <= d < self.chains@.len() implies #[trigger] self.chain_ok(
                d,
            ) by {
                assert(before.chain_ok(d));
                if d != ci {
                    assert forall|i: int| 0 <= i < self.chains@[d].len() implies #[trigger] self.link_ok(
                        d,
                        i,
                    ) by {
                        assert(before.link_ok(d, i));
                        assert(self.chains@[d][i] != key);
                    }
                    assert(self.column(d) =~= before.column(d)) by {
                        assert forall|i: int| 0 <= i < self.chains@[d].len() implies self.column(
                            d,
                        )[i] == before.column(d)[i] by {
                            assert(before.link_ok(d, i));
                            assert(self.chains@[d][i] != key);
                        }
                    }
                } else {
                    assert forall|i: int| 0 <= i < ks2.len() implies #[trigger] self.link_ok(
                        ci,
                        i,
                    ) by {
                        let i0 = if i < j { i } else { i + 1 };
                        assert(ks2[i] == ks[i0]);
                        assert(before.link_ok(ci, i0));
                        if i + 1 < ks2.len() {
                            assert(ks2[i + 1] == ks[if i + 1 < j { i + 1 } else { i + 2 }]);
                        }
                        if i == j - 1 {
                            assert(ks[i0] == prev.unwrap());
                        }
                    }
                }
            }
            assert forall|d: int| 0 <= d < self.num_columns() && d != ci implies #[trigger] self.column(
                d,
            ) == before.column(d) && self.keys(d) == before.keys(d) by {
                assert(self.chain_ok(d));
                assert(before.chain_ok(d));
                assert(self.column(d) =~= before.column(d)) by {
                    assert forall|i: int| 0 <= i < self.chains@[d].len() implies self.column(d)[i]
                        == before.column(d)[i] by {
                        assert(before.link_ok(d, i));
                        assert(self.chains@[d][i] != key);
                    }
                }
            }
            before.lemma_grid_after(self, ci);
        }
    }

    /// Links a new span into column `c` at position `j`, between the
    /// handles `prev` and `next`. Returns `false`, and changes nothing, when
    /// the arena is full.
    pub(crate) fn link(
        &mut self,
        c: usize,
        prev: Option<SpanKey>,
        next: Option<SpanKey>,
        data: SpanData,
        Ghost(j): Ghost<int>,
    ) -> (r: bool)
        requires
            old(self).wf(),
            c < old(self).num_columns(),
            0 <= j <= old(self).keys(c as int).len(),
            prev == old(self).key_at(c as int, j - 1),
            next == old(self).key_at(c as int, j),
            data.min < data.max,
            j > 0 ==> old(self).column(c as int)[j - 1].max < data.min,
            j < old(self).keys(c as int).len() ==> data.max < old(self).column(c as int)[j].min,
        ensures
            final(self).wf(),
            final(self).same_shape(old(self)),
            final(self).same_but(old(self), c as int),
            r == (old(self).live() < MAX_SPANS),
            r ==> final(self).live() == old(self).live() + 1 && final(self).column(c as int) == old(
                self,
            ).column(c as int).insert(j, data),
            !r ==> final(self).live() == old(self).live() && final(self).column(c as int) == old(
                self,
            ).column(c as int) && final(self).keys(c as int) == old(self).keys(c as int),
    {
        let ghost before = *self;
        let ghost ci = c as int;
        let ghost ks = self.chains@[ci];
        assert(self.chain_ok(ci));
        if self.spans.len() >= MAX_SPANS {
            return false;
        }
        let span = SpanBuilder { min: data.min, max: data.max, area: data.area, next }.build();
        let key = match prev {
            Some(pk) => {
                assert(self.link_ok(ci, j - 1));
                let mut p = self.load(pk, Ghost(ci), Ghost(j - 1));
                let inserted = self.spans.insert(span);
                let key = inserted.unwrap();
                p.set_next(Some(key));
                let done = self.spans.set(pk, p);
                assert(done);
                key
            },
            None => {
                let inserted = self.spans.insert(span);
                let key = inserted.unwrap();
                self.columns.set(c, Some(key));
                key
            },
        };
        self.chains = Ghost(self.chains@.update(ci, ks.insert(j, key)));
        self.owner = Ghost(self.owner@.insert(key, ci));
        proof {
            let ks2 = ks.insert(j, key);
            assert(self.chains@[ci] == ks2);
            assert forall|d: int, i: int|
                0 <= d < before.chains@.len() && 0 <= i < before.chains@[d].len() implies (
            #[trigger] before.chains@[d][i]) != key by {
                assert(before.chain_ok(d));
                assert(before.link_ok(d, i));
            }
            assert forall|d: int, i: int|
                0 <= d < before.chains@.len() && d != ci && 0 <= i < before.chains@[d].len()
                    && prev.is_some() implies (#[trigger] before.chains@[d][i]) != prev.unwrap() by {
                before.lemma_keys_disjoint(d, i, ci, j - 1);
            }
            assert forall|i: int| 0 <= i < ks.len() && i != j - 1 && prev.is_some() implies (
            #[trigger] ks[i]) != prev.unwrap() by {
                before.lemma_keys_distinct(ci, i, j - 1);
            }
            assert forall|i: int| 0 <= i < ks2.len() implies #[trigger] self.column(ci)[i]
                == before.column(ci).insert(j, data)[i] by {
                if i < j {
                    assert(ks2[i] == ks[i]);
                    assert(before.link_ok(ci, i));
                    assert(before.column(ci).insert(j, data)[i] == before.column(ci)[i]);
                } else if i == j {
                    assert(ks2[i] == key);
                } else {
                    assert(ks2[i] == ks[i - 1]);
                    assert(before.link_ok(ci, i - 1));
                    assert(before.column(ci).insert(j, data)[i] == before.column(ci)[i - 1]);
                }
            }
            assert(self.column(ci) =~= before.column(ci).insert(j, data));
            lemma_insert_ascending(before.column(ci), j, data);
            assert forall|k: SpanKey| self.spans@.dom().contains(k) implies #[trigger] self.linked(
                k,
            ) by {
                if k == key {
                    assert(ks2[j] == key);
                } else {
                    assert(before.linked(k));
                    let d = before.owner@[k];
                    let i = choose|i: int|
                        0 <= i < before.chains@[d].len() && before.chains@[d][i] == k;
                    if d == ci {
                        let i2 = if i < j { i } else { i + 1 };
                        assert(ks2[i2] == k);
                    } else {
                        assert(self.chains@[d][i] == k);
                    }
                }
            }
            assert forall|d: int| 0 <= d < self.chains@.len() implies #[trigger] self.chain_ok(
                d,
            ) by {
                assert(before.chain_ok(d));
                if d != ci {
                    assert forall|i: int| 0 <= i < self.chains@[d].len() implies #[trigger] self.link_ok(
                        d,
                        i,
                    ) by {
                        assert(before.link_ok(d, i));
                        assert(before.chains@[d][i] != key);
                    }
                    assert(self.column(d) =~= before.column(d)) by {
                        assert forall|i: int| 0 <= i < self.chains@[d].len() implies self.column(
                            d,
                        )[i] == before.column(d)[i] by {
                            assert(before.link_ok(d, i));
                            assert(before.chains@[d][i] != key);
                        }
                    }
                } else {
                    assert forall|i: int| 0 <= i < ks2.len() implies #[trigger] self.link_ok(
                        ci,
                        i,
                    ) by {
                        if i < j {
                            assert(ks2[i] == ks[i]);
                            assert(before.link_ok(ci, i));
                            if i + 1 < j {
                                assert(ks2[i + 1] == ks[i + 1]);
                            }
                        } else if i == j {
                            if j < ks.len() {
                                assert(ks2[j + 1] == ks[j]);
                            }
                        } else {
                            assert(ks2[i] == ks[i - 1]);
                            assert(before.link_ok(ci, i - 1));
                            if i + 1 < ks2.len() {
                                assert(ks2[i + 1] == ks[i]);
                            }
                        }
                    }
                }
            }
            assert forall|d: int| 0 <= d < self.num_columns() && d != ci implies #[trigger] self.column(
                d,
            ) == before.column(d) && self.keys(d) == before.keys(d) by {
                assert(self.chain_ok(d));
                assert(before.chain_ok(d));
                assert(self.column(d) =~= before.column(d)) by {
                    assert forall|i: int| 0 <= i < self.chains@[d].len() implies self.column(d)[i]
                        == before.column(d)[i] by {
                        assert(before.link_ok(d, i));
                        assert(before.chains@[d][i] != key);
                    }
                }
            }
            before.lemma_grid_after(self, ci);
        }
        true
    }
}

} // verus!
