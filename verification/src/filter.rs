//! The three filters that withdraw or extend walkability after rasterization.
//! Each of them changes area tags only: no span is added, removed or resized.

use vstd::prelude::*;
use crate::heightfield::{Heightfield, HeightfieldView};
use crate::math::{dir_offset_x, dir_offset_z, spec_dir_offset_x, spec_dir_offset_z};
use crate::span::{SpanData, NULL_AREA};

verus! {

broadcast use crate::heightfield::Heightfield::lemma_view;

/// The span with another area tag.
pub open spec fn with_area(s: SpanData, area: u8) -> SpanData {
    SpanData { area, ..s }
}

/// Whether the span at position `i` takes over the tag of the span above
/// it: the span above is walkable and does not start at ground level, the
/// span itself is not walkable, and no more than `climb` voxels separate
/// its ceiling from the floor of the span above.
pub open spec fn absorbs_upper(col: Seq<SpanData>, i: int, climb: int) -> bool {
    &&& 0 <= i && i + 1 < col.len()
    &&& col[i + 1].area != NULL_AREA
    &&& col[i + 1].min > 0
    &&& col[i].area == NULL_AREA
    &&& col[i + 1].min - col[i].max <= climb
}

/// A column after the filter of low-hanging obstacles.
pub open spec fn low_hanging_filtered(col: Seq<SpanData>, climb: int) -> Seq<SpanData> {
    Seq::new(
        col.len(),
        |i: int|
            if absorbs_upper(col, i, climb) {
                with_area(col[i], col[i + 1].area)
            } else {
                col[i]
            },
    )
}

/// Whether less than `height` voxels are clear between the span at
/// position `i` and the span above it. Above the topmost span the sky is open.
pub open spec fn lacks_headroom(col: Seq<SpanData>, i: int, height: int) -> bool {
    0 <= i && i + 1 < col.len() && col[i + 1].min - col[i].max < height
}

/// A column after the filter of low headroom.
pub open spec fn low_height_filtered(col: Seq<SpanData>, height: int) -> Seq<SpanData> {
    Seq::new(
        col.len(),
        |i: int|
            if lacks_headroom(col, i, height) {
                with_area(col[i], NULL_AREA)
            } else {
                col[i]
            },
    )
}

/// Filtering for headroom a second time, with the same height, changes nothing.
pub proof fn lemma_low_height_idempotent(col: Seq<SpanData>, height: int)
    ensures
        low_height_filtered(low_height_filtered(col, height), height) == low_height_filtered(
            col,
            height,
        ),
{
    let once = low_height_filtered(col, height);
    let twice = low_height_filtered(once, height);
    assert forall|i: int| 0 <= i < col.len() implies twice[i] == once[i] by {
        assert(lacks_headroom(once, i, height) == lacks_headroom(col, i, height));
    }
    assert(twice =~= once);
}

/// The headroom filter only ever withdraws walkability: each span keeps
/// its heights, and its tag either stays or becomes the unwalkable one.
pub proof fn lemma_low_height_monotone(col: Seq<SpanData>, height: int, i: int)
    requires
        0 <= i < col.len(),
    ensures
        low_height_filtered(col, height)[i].min == col[i].min,
        low_height_filtered(col, height)[i].max == col[i].max,
        low_height_filtered(col, height)[i].area == col[i].area || low_height_filtered(
            col,
            height,
        )[i].area == NULL_AREA,
{
}

/// The floors of a column, bottom to top.
pub open spec fn floors(col: Seq<SpanData>) -> Seq<int> {
    Seq::new(col.len(), |i: int| col[i].min as int)
}

pub open spec fn distance(a: int, b: int) -> int {
    if a >= b {
        a - b
    } else {
        b - a
    }
}

/// Of a non-empty list of floors, the one nearest to `f`; of two equally
/// near the lower one.
pub open spec fn nearest_floor(floors: Seq<int>, f: int) -> int
    decreases floors.len(),
{
    if floors.len() <= 1 {
        floors[0]
    } else {
        let best = nearest_floor(floors.drop_last(), f);
        if distance(floors.last(), f) < distance(best, f) {
            floors.last()
        } else {
            best
        }
    }
}

/// The nearest floor is the first floor of the list than which none is
/// nearer: every floor before it is farther, and no floor after it is nearer.
pub proof fn lemma_nearest_floor(floors: Seq<int>, f: int)
    requires
        floors.len() > 0,
    ensures
        exists|w: int|
            {
                &&& 0 <= w < floors.len()
                &&& #[trigger] floors[w] == nearest_floor(floors, f)
                &&& forall|i: int|
                    0 <= i < w ==> distance(nearest_floor(floors, f), f) < distance(
                        #[trigger] floors[i],
                        f,
                    )
            },
        forall|i: int|
            0 <= i < floors.len() ==> distance(nearest_floor(floors, f), f) <= distance(
                #[trigger] floors[i],
                f,
            ),
    decreases floors.len(),
{
    let best = nearest_floor(floors, f);
    if floors.len() <= 1 {
        assert(floors[0] == best);
    } else {
        let init = floors.drop_last();
        let last = floors.len() - 1;
        lemma_nearest_floor(init, f);
        let before = nearest_floor(init, f);
        let w0 = choose|w: int|
            {
                &&& 0 <= w < init.len()
                &&& #[trigger] init[w] == before
                &&& forall|i: int|
                    0 <= i < w ==> distance(before, f) < distance(#[trigger] init[i], f)
            };
        assert(floors[last] == floors.last());
        assert forall|i: int| 0 <= i < init.len() implies floors[i] == init[i] by {}
        assert forall|i: int| 0 <= i < floors.len() implies distance(best, f) <= distance(
            #[trigger] floors[i],
            f,
        ) by {
            if i < init.len() {
                assert(floors[i] == init[i]);
            }
        }
        let w = if distance(floors.last(), f) < distance(before, f) { last } else { w0 };
        assert(floors[w] == best);
        assert forall|i: int| 0 <= i < w implies distance(best, f) < distance(
            #[trigger] floors[i],
            f,
        ) by {
            assert(floors[i] == init[i]);
        }
    }
}

impl HeightfieldView {
    /// The floor nearest to `f` in the column next to cell `(x, z)` in
    /// direction `dir`, or `None` where that cell lies outside the grid or
    /// its column is empty.
    pub open spec fn neighbour_floor(self, x: int, z: int, dir: int, f: int) -> Option<int> {
        let nx = x + spec_dir_offset_x(dir);
        let nz = z + spec_dir_offset_z(dir);
        if self.has_cell(nx, nz) && self.columns[self.index(nx, nz)].len() > 0 {
            Some(nearest_floor(floors(self.columns[self.index(nx, nz)]), f))
        } else {
            None
        }
    }

    /// The lowest and the highest of: the floor `f` itself, and the floors
    /// nearest to it in the neighbours of cell `(x, z)` in the directions
    /// below `dirs`.
    pub open spec fn floor_range(self, x: int, z: int, f: int, dirs: int) -> (int, int)
        decreases dirs,
    {
        if dirs <= 0 {
            (f, f)
        } else {
            let (lo, hi) = self.floor_range(x, z, f, dirs - 1);
            match self.neighbour_floor(x, z, dirs - 1, f) {
                Some(nf) => (if nf < lo { nf } else { lo }, if nf > hi { nf } else { hi }),
                None => (lo, hi),
            }
        }
    }

    /// Whether a span with floor `f` in cell `(x, z)` stands at a ledge: its
    /// own floor and the nearest floors of its four neighbours lie more than
    /// `climb` voxels apart.
    pub open spec fn is_ledge(self, x: int, z: int, f: int, climb: int) -> bool {
        let (lo, hi) = self.floor_range(x, z, f, 4);
        hi - lo > climb
    }

    /// Column `c` after the ledge filter: every walkable span at a ledge
    /// has become unwalkable.
    pub open spec fn ledge_filtered(self, c: int, climb: int) -> Seq<SpanData> {
        let x = c % (self.width as int);
        let z = c / (self.width as int);
        let col = self.columns[c];
        Seq::new(
            col.len(),
            |i: int|
                if col[i].area != NULL_AREA && self.is_ledge(x, z, col[i].min as int, climb) {
                    with_area(col[i], NULL_AREA)
                } else {
                    col[i]
                },
        )
    }

    /// The heightfield after the filter of low-hanging obstacles.
    pub open spec fn filter_low_hanging(self, climb: int) -> HeightfieldView {
        self.with_columns(
            Seq::new(self.columns.len(), |c: int| low_hanging_filtered(self.columns[c], climb)),
        )
    }

    /// The heightfield after the ledge filter.
    pub open spec fn filter_ledges(self, climb: int) -> HeightfieldView {
        self.with_columns(Seq::new(self.columns.len(), |c: int| self.ledge_filtered(c, climb)))
    }

    /// The heightfield after the headroom filter.
    pub open spec fn filter_low_height(self, height: int) -> HeightfieldView {
        self.with_columns(
            Seq::new(self.columns.len(), |c: int| low_height_filtered(self.columns[c], height)),
        )
    }

    /// Whether every column has the same floors in both heightfields.
    pub open spec fn same_floors(self, other: HeightfieldView) -> bool {
        &&& self.width == other.width
        &&& self.depth == other.depth
        &&& self.columns.len() == other.columns.len()
        &&& forall|d: int|
            0 <= d < self.columns.len() ==> floors(#[trigger] self.columns[d]) == floors(
                other.columns[d],
            )
    }

    /// The nearest floor of a neighbour depends on floors only.
    pub proof fn lemma_neighbour_floor_same_floors(
        self,
        other: HeightfieldView,
        x: int,
        z: int,
        dir: int,
        f: int,
    )
        requires
            self.columns.len() == self.width * self.depth,
            self.same_floors(other),
        ensures
            self.neighbour_floor(x, z, dir, f) == other.neighbour_floor(x, z, dir, f),
    {
        let w = self.width as int;
        let d = self.depth as int;
        let nx = x + spec_dir_offset_x(dir);
        let nz = z + spec_dir_offset_z(dir);
        let n = self.index(nx, nz);
        if self.has_cell(nx, nz) {
            assert(0 <= n < w * d) by (nonlinear_arith)
                requires
                    0 <= nx < w,
                    0 <= nz < d,
                    n == nx + nz * w,
            ;
            assert(floors(self.columns[n]) == floors(other.columns[n]));
            assert(floors(self.columns[n]).len() == self.columns[n].len());
            assert(floors(other.columns[n]).len() == other.columns[n].len());
        }
    }

    /// The range of nearest floors depends on floors only.
    pub proof fn lemma_floor_range_same_floors(
        self,
        other: HeightfieldView,
        x: int,
        z: int,
        f: int,
        dirs: int,
    )
        requires
            self.columns.len() == self.width * self.depth,
            self.same_floors(other),
        ensures
            self.floor_range(x, z, f, dirs) == other.floor_range(x, z, f, dirs),
        decreases dirs,
    {
        if dirs > 0 {
            self.lemma_floor_range_same_floors(other, x, z, f, dirs - 1);
            self.lemma_neighbour_floor_same_floors(other, x, z, dirs - 1, f);
        }
    }

    /// Whether a span stands at a ledge depends on floors only.
    pub proof fn lemma_is_ledge_same_floors(
        self,
        other: HeightfieldView,
        x: int,
        z: int,
        f: int,
        climb: int,
    )
        requires
            self.columns.len() == self.width * self.depth,
            self.same_floors(other),
        ensures
            self.is_ledge(x, z, f, climb) == other.is_ledge(x, z, f, climb),
    {
        self.lemma_floor_range_same_floors(other, x, z, f, 4);
    }

    /// The filters change area tags only: every column keeps its spans,
    /// each with its floor and its ceiling, and the arena is left alone. The
    /// ledge filter and the headroom filter withdraw walkability where they
    /// change a tag; the filter of low-hanging obstacles gives a tag to
    /// unwalkable spans only.
    pub proof fn lemma_filters_change_areas_only(self, height: int, climb: int, c: int, i: int)
        requires
            0 <= c < self.columns.len(),
            0 <= i < self.columns[c].len(),
        ensures
            ({
                let span = self.columns[c][i];
                let hanging = self.filter_low_hanging(climb);
                let ledges = self.filter_ledges(climb);
                let headroom = self.filter_low_height(height);
                &&& hanging.same_grid(self) && hanging.live == self.live
                &&& ledges.same_grid(self) && ledges.live == self.live
                &&& headroom.same_grid(self) && headroom.live == self.live
                &&& hanging.columns[c].len() == self.columns[c].len()
                &&& ledges.columns[c].len() == self.columns[c].len()
                &&& headroom.columns[c].len() == self.columns[c].len()
                &&& hanging.columns[c][i] == with_area(span, hanging.columns[c][i].area)
                &&& ledges.columns[c][i] == with_area(span, ledges.columns[c][i].area)
                &&& headroom.columns[c][i] == with_area(span, headroom.columns[c][i].area)
                &&& hanging.columns[c][i].area == span.area || span.area == NULL_AREA
                &&& ledges.columns[c][i].area == span.area || ledges.columns[c][i].area
                    == NULL_AREA
                &&& headroom.columns[c][i].area == span.area || headroom.columns[c][i].area
                    == NULL_AREA
            }),
    {
    }

    /// Filtering ledges a second time, with the same climb, changes nothing.
    pub proof fn lemma_filter_ledges_idempotent(self, climb: int)
        requires
            self.columns.len() == self.width * self.depth,
        ensures
            self.filter_ledges(climb).filter_ledges(climb) == self.filter_ledges(climb),
    {
        let once = self.filter_ledges(climb);
        let twice = once.filter_ledges(climb);
        assert forall|d: int| 0 <= d < once.columns.len() implies floors(
            #[trigger] once.columns[d],
        ) == floors(self.columns[d]) by {
            assert(floors(once.columns[d]) =~= floors(self.columns[d]));
        }
        assert forall|c: int| 0 <= c < self.columns.len() implies twice.columns[c]
            == once.columns[c] by {
            let x = c % (self.width as int);
            let z = c / (self.width as int);
            assert forall|i: int| 0 <= i < once.columns[c].len() implies twice.columns[c][i]
                == once.columns[c][i] by {
                once.lemma_is_ledge_same_floors(
                    self,
                    x,
                    z,
                    once.columns[c][i].min as int,
                    climb,
                );
            }
            assert(twice.columns[c] =~= once.columns[c]);
        }
        assert(twice.columns =~= once.columns);
    }

    /// Filtering for headroom a second time, with the same height, changes
    /// nothing.
    pub proof fn lemma_filter_low_height_idempotent(self, height: int)
        ensures
            self.filter_low_height(height).filter_low_height(height) == self.filter_low_height(
                height,
            ),
    {
        let once = self.filter_low_height(height);
        let twice = once.filter_low_height(height);
        assert forall|c: int| 0 <= c < self.columns.len() implies twice.columns[c]
            == once.columns[c] by {
            lemma_low_height_idempotent(self.columns[c], height);
        }
        assert(twice.columns =~= once.columns);
    }
}

impl Heightfield {
    /// The floor nearest to `f` in column `c`, or `None` for an empty column.
    fn nearest_floor_in(&self, c: usize, f: u16) -> (r: Option<u16>)
        requires
            self.wf(),
            c < self.num_columns(),
        ensures
            self.column(c as int).len() == 0 ==> r.is_none(),
            self.column(c as int).len() > 0 ==> r == Some(
                nearest_floor(floors(self.column(c as int)), f as int) as u16,
            ) && 0 <= nearest_floor(floors(self.column(c as int)), f as int) <= u16::MAX,
    {
        let ghost ci = c as int;
        let ghost fl = floors(self.column(ci));
        proof {
            self.lemma_wf();
        }
        let mut cur = self.head(c);
        let mut best: Option<u16> = None;
        let ghost mut j: int = 0;
        while cur.is_some()
            invariant
                self.wf(),
                0 <= ci < self.num_columns(),
                ci == c as int,
                fl == floors(self.column(ci)),
                self.keys(ci).len() == self.column(ci).len(),
                0 <= j <= self.keys(ci).len(),
                cur == self.key_at(ci, j),
                j == 0 ==> best.is_none(),
                j > 0 ==> best == Some(nearest_floor(fl.take(j), f as int) as u16) && 0
                    <= nearest_floor(fl.take(j), f as int) <= u16::MAX,
            decreases self.keys(ci).len() - j,
        {
            let k = cur.unwrap();
            let s = self.load(k, Ghost(ci), Ghost(j));
            let m = s.min();
            proof {
                assert(fl.take(j + 1).drop_last() =~= fl.take(j));
                assert(fl.take(j + 1).last() == fl[j]);
                assert(fl[j] == m);
            }
            match best {
                None => {
                    best = Some(m);
                },
                Some(b) => {
                    let dm: u16 = if m >= f { m - f } else { f - m };
                    let db: u16 = if b >= f { b - f } else { f - b };
                    if dm < db {
                        best = Some(m);
                    }
                },
            }
            cur = s.next();
            proof {
                j = j + 1;
            }
        }
        proof {
            assert(fl.take(j) =~= fl);
        }
        best
    }

    /// Runtime test of [`Heightfield::is_ledge`].
    fn is_ledge_at(&self, x: u32, z: u32, f: u16, climb: u16) -> (r: bool)
        requires
            self.wf(),
            x < self.spec_width(),
            z < self.spec_depth(),
        ensures
            r == self@.is_ledge(x as int, z as int, f as int, climb as int),
    {
        let mut lo: u16 = f;
        let mut hi: u16 = f;
        let mut dir: u8 = 0;
        while dir < 4
            invariant
                self.wf(),
                x < self.spec_width(),
                z < self.spec_depth(),
                0 <= dir <= 4,
                lo <= f <= hi,
                self@.floor_range(x as int, z as int, f as int, dir as int) == (lo as int, hi as int),
            decreases 4 - dir,
        {
            let nx: i64 = x as i64 + dir_offset_x(dir) as i64;
            let nz: i64 = z as i64 + dir_offset_z(dir) as i64;
            proof {
                reveal_with_fuel(HeightfieldView::floor_range, 2);
                self.lemma_wf();
            }
            if 0 <= nx && nx < self.width() as i64 && 0 <= nz && nz < self.depth() as i64 {
                let n = self.column_index(nx as u32, nz as u32);
                match self.nearest_floor_in(n, f) {
                    Some(nf) => {
                        if nf < lo {
                            lo = nf;
                        }
                        if nf > hi {
                            hi = nf;
                        }
                    },
                    None => {},
                }
            }
            dir += 1;
        }
        hi - lo > climb
    }

    /// Retags column `c` as the filter of low-hanging obstacles asks.
    fn filter_column_low_hanging(&mut self, c: usize, climb: u16)
        requires
            old(self).wf(),
            c < old(self).num_columns(),
        ensures
            final(self).wf(),
            final(self).same_shape(old(self)),
            final(self).same_but(old(self), c as int),
            final(self).live() == old(self).live(),
            final(self).column(c as int) == low_hanging_filtered(
                old(self).column(c as int),
                climb as int,
            ),
    {
        let ghost start = *self;
        let ghost ci = c as int;
        let ghost goal = low_hanging_filtered(start.column(ci), climb as int);
        proof {
            self.lemma_wf();
        }
        let mut cur = self.head(c);
        let ghost mut j: int = 0;
        while cur.is_some()
            invariant
                self.wf(),
                start.wf(),
                self.same_shape(&start),
                self.same_but(&start, ci),
                self.live() == start.live(),
                ci == c as int,
                0 <= ci < self.num_columns(),
                goal == low_hanging_filtered(start.column(ci), climb as int),
                self.keys(ci) == start.keys(ci),
                self.keys(ci).len() == self.column(ci).len(),
                self.column(ci).len() == start.column(ci).len(),
                0 <= j <= self.keys(ci).len(),
                cur == self.key_at(ci, j),
                forall|i: int| 0 <= i < j ==> self.column(ci)[i] == goal[i],
                forall|i: int|
                    j <= i < self.column(ci).len() ==> self.column(ci)[i] == start.column(ci)[i],
            decreases self.keys(ci).len() - j,
        {
            let k = cur.unwrap();
            let s = self.load(k, Ghost(ci), Ghost(j));
            let next = s.next();
            match next {
                Some(nk) => {
                    let up = self.load(nk, Ghost(ci), Ghost(j + 1));
                    proof {
                        start.lemma_wf();
                        assert(start.column(ci)[j].max < start.column(ci)[j + 1].min);
                    }
                    if up.area() != NULL_AREA && up.min() > 0 && s.area() == NULL_AREA && up.min()
                        - s.max() <= climb {
                        let ghost before = *self;
                        self.retag(c, k, Ghost(j), up.area());
                        proof {
                            self.lemma_wf();
                            self.lemma_same_but_trans(&before, &start, ci);
                        }
                    }
                },
                None => {},
            }
            cur = next;
            proof {
                j = j + 1;
            }
        }
        proof {
            assert(self.column(ci) =~= goal);
        }
    }

    /// Retags column `c` as the headroom filter asks.
    fn filter_column_low_height(&mut self, c: usize, height: u16)
        requires
            old(self).wf(),
            c < old(self).num_columns(),
        ensures
            final(self).wf(),
            final(self).same_shape(old(self)),
            final(self).same_but(old(self), c as int),
            final(self).live() == old(self).live(),
            final(self).column(c as int) == low_height_filtered(
                old(self).column(c as int),
                height as int,
            ),
    {
        let ghost start = *self;
        let ghost ci = c as int;
        let ghost goal = low_height_filtered(start.column(ci), height as int);
        proof {
            self.lemma_wf();
        }
        let mut cur = self.head(c);
        let ghost mut j: int = 0;
        while cur.is_some()
            invariant
                self.wf(),
                start.wf(),
                self.same_shape(&start),
                self.same_but(&start, ci),
                self.live() == start.live(),
                ci == c as int,
                0 <= ci < self.num_columns(),
                goal == low_height_filtered(start.column(ci), height as int),
                self.keys(ci) == start.keys(ci),
                self.keys(ci).len() == self.column(ci).len(),
                self.column(ci).len() == start.column(ci).len(),
                0 <= j <= self.keys(ci).len(),
                cur == self.key_at(ci, j),
                forall|i: int| 0 <= i < j ==> self.column(ci)[i] == goal[i],
                forall|i: int|
                    j <= i < self.column(ci).len() ==> self.column(ci)[i] == start.column(ci)[i],
            decreases self.keys(ci).len() - j,
        {
            let k = cur.unwrap();
            let s = self.load(k, Ghost(ci), Ghost(j));
            let next = s.next();
            match next {
                Some(nk) => {
                    let up = self.load(nk, Ghost(ci), Ghost(j + 1));
                    proof {
                        start.lemma_wf();
                        assert(start.column(ci)[j].max < start.column(ci)[j + 1].min);
                    }
                    if up.min() - s.max() < height {
                        let ghost before = *self;
                        self.retag(c, k, Ghost(j), NULL_AREA);
                        proof {
                            self.lemma_wf();
                            self.lemma_same_but_trans(&before, &start, ci);
                        }
                    }
                },
                None => {},
            }
            cur = next;
            proof {
                j = j + 1;
            }
        }
        proof {
            assert(self.column(ci) =~= goal);
        }
    }

    /// Retags column `c` as the ledge filter asks. `start` is the
    /// heightfield as it was before the filter touched any column.
    fn filter_column_ledge(&mut self, c: usize, climb: u16, Ghost(start): Ghost<Heightfield>)
        requires
            old(self).wf(),
            start.wf(),
            c < old(self).num_columns(),
            old(self).same_shape(&start),
            old(self)@.same_floors(start@),
            old(self).column(c as int) == start.column(c as int),
        ensures
            final(self).wf(),
            final(self).same_shape(old(self)),
            final(self).same_but(old(self), c as int),
            final(self).live() == old(self).live(),
            final(self).column(c as int) == start@.ledge_filtered(c as int, climb as int),
    {
        let ghost entry = *self;
        let ghost ci = c as int;
        let ghost goal = start@.ledge_filtered(ci, climb as int);
        proof {
            self.lemma_wf();
            start.lemma_wf();
        }
        let w = self.width();
        assert(w > 0) by (nonlinear_arith)
            requires
                w as int * (self.spec_depth() as int) > 0,
                w >= 0,
        ;
        let x: u32 = (c % (w as usize)) as u32;
        let z64: u64 = (c / (w as usize)) as u64;
        assert(z64 < self.spec_depth()) by (nonlinear_arith)
            requires
                z64 == ci / (w as int),
                w > 0,
                0 <= ci < (w as int) * (self.spec_depth() as int),
        ;
        let z: u32 = z64 as u32;
        let mut cur = self.head(c);
        let ghost mut j: int = 0;
        while cur.is_some()
            invariant
                self.wf(),
                start.wf(),
                entry.wf(),
                self.same_shape(&entry),
                self.same_shape(&start),
                self.same_but(&entry, ci),
                self@.same_floors(start@),
                self.live() == entry.live(),
                ci == c as int,
                0 <= ci < self.num_columns(),
                x == ci % (start.spec_width() as int),
                z == ci / (start.spec_width() as int),
                x < self.spec_width(),
                z < self.spec_depth(),
                goal == start@.ledge_filtered(ci, climb as int),
                self.keys(ci) == entry.keys(ci),
                self.keys(ci).len() == self.column(ci).len(),
                self.column(ci).len() == start.column(ci).len(),
                0 <= j <= self.keys(ci).len(),
                cur == self.key_at(ci, j),
                forall|i: int| 0 <= i < j ==> self.column(ci)[i] == goal[i],
                forall|i: int|
                    j <= i < self.column(ci).len() ==> self.column(ci)[i] == start.column(ci)[i],
            decreases self.keys(ci).len() - j,
        {
            let k = cur.unwrap();
            let s = self.load(k, Ghost(ci), Ghost(j));
            let next = s.next();
            if s.area() != NULL_AREA {
                let ledge = self.is_ledge_at(x, z, s.min(), climb);
                proof {
                    self.lemma_wf();
                    self@.lemma_is_ledge_same_floors(
                        start@,
                        x as int,
                        z as int,
                        s.min() as int,
                        climb as int,
                    );
                }
                if ledge {
                    let ghost before = *self;
                    self.retag(c, k, Ghost(j), NULL_AREA);
                    proof {
                        self.lemma_wf();
                        self.lemma_same_but_trans(&before, &entry, ci);
                        assert forall|d: int| 0 <= d < self@.columns.len() implies floors(
                            #[trigger] self@.columns[d],
                        ) == floors(start@.columns[d]) by {
                            assert(floors(before@.columns[d]) == floors(start@.columns[d]));
                            if d != ci {
                                assert(self.column(d) == before.column(d));
                            } else {
                                assert(floors(self.column(d)) =~= floors(before.column(d)));
                            }
                        }
                    }
                }
            }
            cur = next;
            proof {
                j = j + 1;
            }
        }
        proof {
            assert(self.column(ci) =~= goal);
        }
    }

    /// Lets an unwalkable span take over the area tag of the walkable span
    /// right above it, where that span does not start at ground level and
    /// no more than `walkable_climb` voxels separate the two. Every column
    /// becomes [`low_hanging_filtered`] of what it was.
    pub fn filter_low_hanging_walkable_obstacles(&mut self, walkable_climb: u16)
        requires
            old(self).wf(),
        ensures
            final(self).wf(),
            final(self)@ == old(self)@.filter_low_hanging(walkable_climb as int),
    {
        let ghost start = *self;
        let n = self.column_count();
        let mut c: usize = 0;
        while c < n
            invariant
                self.wf(),
                start.wf(),
                self.same_shape(&start),
                self.live() == start.live(),
                n == self.num_columns(),
                0 <= c <= n,
                forall|d: int|
                    0 <= d < c ==> #[trigger] self.column(d) == low_hanging_filtered(
                        start.column(d),
                        walkable_climb as int,
                    ),
                forall|d: int| c <= d < n ==> #[trigger] self.column(d) == start.column(d),
            decreases n - c,
        {
            let ghost before = *self;
            self.filter_column_low_hanging(c, walkable_climb);
            proof {
                assert forall|d: int| 0 <= d < n && d != c implies #[trigger] self.column(d)
                    == before.column(d) by {}
            }
            c += 1;
        }
        proof {
            self.lemma_wf();
            start.lemma_wf();
            let goal = start@.filter_low_hanging(walkable_climb as int);
            assert forall|d: int| 0 <= d < n implies self@.columns[d] == goal.columns[d] by {
                assert(self.column(d) == self@.columns[d]);
            }
            assert(self@.columns =~= goal.columns);
            assert(self@ =~= goal);
        }
    }

    /// Makes every span unwalkable that stands at a ledge: a walkable span
    /// whose floor and the nearest floors of the four neighbouring columns
    /// lie more than `walkable_climb` voxels apart. Neighbours outside the
    /// grid and empty columns do not count. Every column becomes
    /// [`Heightfield::ledge_filtered`] of the heightfield as it was.
    /// `walkable_height` has no part in the rule.
    pub fn filter_ledge_spans(&mut self, walkable_height: u16, walkable_climb: u16)
        requires
            old(self).wf(),
        ensures
            final(self).wf(),
            final(self)@ == old(self)@.filter_ledges(walkable_climb as int),
    {
        let ghost start = *self;
        let n = self.column_count();
        let mut c: usize = 0;
        while c < n
            invariant
                self.wf(),
                start.wf(),
                self.same_shape(&start),
                self.live() == start.live(),
                n == self.num_columns(),
                0 <= c <= n,
                forall|d: int|
                    0 <= d < c ==> #[trigger] self.column(d) == start@.ledge_filtered(
                        d,
                        walkable_climb as int,
                    ),
                forall|d: int| c <= d < n ==> #[trigger] self.column(d) == start.column(d),
            decreases n - c,
        {
            let ghost before = *self;
            proof {
                self.lemma_wf();
                start.lemma_wf();
                assert forall|d: int| 0 <= d < self@.columns.len() implies floors(
                    #[trigger] self@.columns[d],
                ) == floors(start@.columns[d]) by {
                    if d < c {
                        assert(self.column(d) == start@.ledge_filtered(d, walkable_climb as int));
                        assert(floors(start@.ledge_filtered(d, walkable_climb as int)) =~= floors(
                            start@.columns[d],
                        ));
                    } else {
                        assert(self.column(d) == start.column(d));
                    }
                }
            }
            self.filter_column_ledge(c, walkable_climb, Ghost(start));
            proof {
                assert forall|d: int| 0 <= d < n && d != c implies #[trigger] self.column(d)
                    == before.column(d) by {}
            }
            c += 1;
        }
        proof {
            self.lemma_wf();
            start.lemma_wf();
            let goal = start@.filter_ledges(walkable_climb as int);
            assert forall|d: int| 0 <= d < n implies self@.columns[d] == goal.columns[d] by {
                assert(self.column(d) == self@.columns[d]);
            }
            assert(self@.columns =~= goal.columns);
            assert(self@ =~= goal);
        }
    }

    /// Makes every span unwalkable that has less than `walkable_height`
    /// voxels of clearance to the span above it. Every column becomes
    /// [`low_height_filtered`] of what it was.
    pub fn filter_walkable_low_height_spans(&mut self, walkable_height: u16)
        requires
            old(self).wf(),
        ensures
            final(self).wf(),
            final(self)@ == old(self)@.filter_low_height(walkable_height as int),
    {
        let ghost start = *self;
        let n = self.column_count();
        let mut c: usize = 0;
        while c < n
            invariant
                self.wf(),
                start.wf(),
                self.same_shape(&start),
                self.live() == start.live(),
                n == self.num_columns(),
                0 <= c <= n,
                forall|d: int|
                    0 <= d < c ==> #[trigger] self.column(d) == low_height_filtered(
                        start.column(d),
                        walkable_height as int,
                    ),
                forall|d: int| c <= d < n ==> #[trigger] self.column(d) == start.column(d),
            decreases n - c,
        {
            let ghost before = *self;
            self.filter_column_low_height(c, walkable_height);
            proof {
                assert forall|d: int| 0 <= d < n && d != c implies #[trigger] self.column(d)
                    == before.column(d) by {}
            }
            c += 1;
        }
        proof {
            self.lemma_wf();
            start.lemma_wf();
            let goal = start@.filter_low_height(walkable_height as int);
            assert forall|d: int| 0 <= d < n implies self@.columns[d] == goal.columns[d] by {
                assert(self.column(d) == self@.columns[d]);
            }
            assert(self@.columns =~= goal.columns);
            assert(self@ =~= goal);
        }
    }
}

} // verus!
