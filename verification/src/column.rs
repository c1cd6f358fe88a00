//! The mathematical model of a column: an ascending sequence of spans, and
//! what inserting an interval with a merge tolerance does to it.

use vstd::prelude::*;
use crate::span::SpanData;

verus! {

/// Every span has positive height, and each lies strictly below the
/// spans after it: the sequence ascends and no two spans overlap or touch.
pub open spec fn ascending(col: Seq<SpanData>) -> bool {
    &&& forall|i: int| 0 <= i < col.len() ==> (#[trigger] col[i]).min < col[i].max
    &&& forall|i: int, j: int| 0 <= i < j < col.len() ==> (#[trigger] col[i]).max < (#[trigger] col[j]).min
}

/// The union of two spans: the lower floor, the higher ceiling, and the
/// larger area tag, so that a walkable tag wins over an unwalkable one.
pub open spec fn fuse(a: SpanData, b: SpanData) -> SpanData {
    SpanData {
        min: if a.min <= b.min { a.min } else { b.min },
        max: if a.max >= b.max { a.max } else { b.max },
        area: if a.area >= b.area { a.area } else { b.area },
    }
}

/// The column after `new` was inserted with merge tolerance `climb`.
///
/// The column is walked upwards. A span that ends more than `climb` below
/// the new interval stays. A span that starts more than `climb` above it
/// ends the walk: the new interval goes in front of it. Any other span
/// overlaps the new interval or lies within `climb` of it, and is fused
/// into it before the walk goes on.
pub open spec fn merge_insert(col: Seq<SpanData>, new: SpanData, climb: int) -> Seq<SpanData>
    decreases col.len(),
{
    if col.len() == 0 {
        seq![new]
    } else if col[0].min > new.max + climb {
        seq![new] + col
    } else if col[0].max + climb < new.min {
        seq![col[0]] + merge_insert(col.skip(1), new, climb)
    } else {
        merge_insert(col.skip(1), fuse(new, col[0]), climb)
    }
}

/// Taking a span out of an ascending column leaves it ascending.
pub proof fn lemma_remove_ascending(col: Seq<SpanData>, j: int)
    requires
        ascending(col),
        0 <= j < col.len(),
    ensures
        ascending(col.remove(j)),
{
    let r = col.remove(j);
    assert forall|i: int| 0 <= i < r.len() implies (#[trigger] r[i]).min < r[i].max by {
        if i < j {
            assert(r[i] == col[i]);
        } else {
            assert(r[i] == col[i + 1]);
        }
    }
    assert forall|a: int, b: int| 0 <= a < b < r.len() implies (#[trigger] r[a]).max < (
    #[trigger] r[b]).min by {
        let a0 = if a < j { a } else { a + 1 };
        let b0 = if b < j { b } else { b + 1 };
        assert(r[a] == col[a0]);
        assert(r[b] == col[b0]);
    }
}

/// Putting a span of positive height between the span below it and the span
/// above it leaves an ascending column ascending.
pub proof fn lemma_insert_ascending(col: Seq<SpanData>, j: int, new: SpanData)
    requires
        ascending(col),
        0 <= j <= col.len(),
        new.min < new.max,
        j > 0 ==> col[j - 1].max < new.min,
        j < col.len() ==> new.max < col[j].min,
    ensures
        ascending(col.insert(j, new)),
{
    let r = col.insert(j, new);
    assert forall|i: int| 0 <= i < r.len() implies (#[trigger] r[i]).min < r[i].max by {
        if i < j {
            assert(r[i] == col[i]);
        } else if i == j {
            assert(r[i] == new);
        } else {
            assert(r[i] == col[i - 1]);
        }
    }
    assert forall|a: int, b: int| 0 <= a < b < r.len() implies (#[trigger] r[a]).max < (
    #[trigger] r[b]).min by {
        if a < j {
            assert(r[a] == col[a]);
            if a < j - 1 {
                assert(col[a].max < col[j - 1].min);
            }
        } else if a == j {
            assert(r[a] == new);
        } else {
            assert(r[a] == col[a - 1]);
        }
        if b < j {
            assert(r[b] == col[b]);
        } else if b == j {
            assert(r[b] == new);
        } else {
            assert(r[b] == col[b - 1]);
            if b - 1 > j {
                assert(col[j].max < col[b - 1].min);
            }
        }
    }
}

/// Whether some span of the column holds the height.
pub open spec fn covers(col: Seq<SpanData>, h: int) -> bool {
    exists|i: int| 0 <= i < col.len() && (#[trigger] col[i]).min <= h <= col[i].max
}

/// No span of a merged column starts below a bound that neither the column
/// nor the new interval starts below.
pub proof fn lemma_merge_insert_floor(col: Seq<SpanData>, new: SpanData, climb: int, bound: int)
    requires
        bound <= new.min,
        forall|i: int| 0 <= i < col.len() ==> bound <= (#[trigger] col[i]).min,
    ensures
        forall|k: int|
            0 <= k < merge_insert(col, new, climb).len() ==> bound <= (#[trigger] merge_insert(
                col,
                new,
                climb,
            )[k]).min,
    decreases col.len(),
{
    let r = merge_insert(col, new, climb);
    let rest = col.skip(1);
    if col.len() > 0 {
        assert forall|i: int| 0 <= i < rest.len() implies bound <= (#[trigger] rest[i]).min by {
            assert(rest[i] == col[i + 1]);
        }
    }
    if col.len() == 0 {
        assert forall|k: int| 0 <= k < r.len() implies bound <= (#[trigger] r[k]).min by {
            assert(r[k] == new);
        }
    } else if col[0].min > new.max + climb {
        assert forall|k: int| 0 <= k < r.len() implies bound <= (#[trigger] r[k]).min by {
            if k > 0 {
                assert(r[k] == col[k - 1]);
            } else {
                assert(r[k] == new);
            }
        }
    } else if col[0].max + climb < new.min {
        lemma_merge_insert_floor(rest, new, climb, bound);
        let tail = merge_insert(rest, new, climb);
        assert forall|k: int| 0 <= k < r.len() implies bound <= (#[trigger] r[k]).min by {
            if k > 0 {
                assert(r[k] == tail[k - 1]);
            } else {
                assert(r[k] == col[0]);
            }
        }
    } else {
        assert(bound <= col[0].min);
        lemma_merge_insert_floor(rest, fuse(new, col[0]), climb, bound);
        assert(r == merge_insert(rest, fuse(new, col[0]), climb));
        assert forall|k: int| 0 <= k < r.len() implies bound <= (#[trigger] r[k]).min by {
            assert(r[k] == merge_insert(rest, fuse(new, col[0]), climb)[k]);
        }
    }
}

/// Inserting an interval of positive height into an ascending column
/// leaves an ascending column.
pub proof fn lemma_merge_insert_ascending(col: Seq<SpanData>, new: SpanData, climb: int)
    requires
        ascending(col),
        new.min < new.max,
        climb >= 0,
    ensures
        ascending(merge_insert(col, new, climb)),
    decreases col.len(),
{
    let r = merge_insert(col, new, climb);
    if col.len() == 0 {
    } else if col[0].min > new.max + climb {
        assert forall|i: int, j: int| 0 <= i < j < r.len() implies (#[trigger] r[i]).max < (
        #[trigger] r[j]).min by {
            if i == 0 {
                assert(r[j] == col[j - 1]);
                assert(col[0].min <= col[j - 1].min);
            } else {
                assert(r[i] == col[i - 1]);
                assert(r[j] == col[j - 1]);
            }
        }
    } else if col[0].max + climb < new.min {
        let rest = col.skip(1);
        let tail = merge_insert(rest, new, climb);
        assert(ascending(rest)) by {
            assert forall|i: int, j: int| 0 <= i < j < rest.len() implies (#[trigger] rest[i]).max
                < (#[trigger] rest[j]).min by {
                assert(rest[i] == col[i + 1]);
                assert(rest[j] == col[j + 1]);
            }
        }
        lemma_merge_insert_ascending(rest, new, climb);
        assert forall|i: int| 0 <= i < rest.len() implies col[0].max + 1 <= (
        #[trigger] rest[i]).min by {
            assert(rest[i] == col[i + 1]);
        }
        lemma_merge_insert_floor(rest, new, climb, col[0].max + 1);
        assert forall|i: int, j: int| 0 <= i < j < r.len() implies (#[trigger] r[i]).max < (
        #[trigger] r[j]).min by {
            assert(r[j] == tail[j - 1]);
            if i > 0 {
                assert(r[i] == tail[i - 1]);
            }
        }
        assert forall|i: int| 0 <= i < r.len() implies (#[trigger] r[i]).min < r[i].max by {
            if i > 0 {
                assert(r[i] == tail[i - 1]);
            }
        }
    } else {
        let rest = col.skip(1);
        assert(ascending(rest)) by {
            assert forall|i: int, j: int| 0 <= i < j < rest.len() implies (#[trigger] rest[i]).max
                < (#[trigger] rest[j]).min by {
                assert(rest[i] == col[i + 1]);
                assert(rest[j] == col[j + 1]);
            }
        }
        lemma_merge_insert_ascending(rest, fuse(new, col[0]), climb);
    }
}

/// A merged column has one span more than the column at most, and one at least.
pub proof fn lemma_merge_insert_len(col: Seq<SpanData>, new: SpanData, climb: int)
    ensures
        1 <= merge_insert(col, new, climb).len() <= col.len() + 1,
    decreases col.len(),
{
    if col.len() == 0 {
    } else if col[0].min > new.max + climb {
    } else if col[0].max + climb < new.min {
        lemma_merge_insert_len(col.skip(1), new, climb);
    } else {
        lemma_merge_insert_len(col.skip(1), fuse(new, col[0]), climb);
    }
}

/// One span of the merged column holds the whole new interval.
pub proof fn lemma_merge_insert_contains(col: Seq<SpanData>, new: SpanData, climb: int)
    ensures
        exists|k: int|
            0 <= k < merge_insert(col, new, climb).len() && (#[trigger] merge_insert(
                col,
                new,
                climb,
            )[k]).min <= new.min && new.max <= merge_insert(col, new, climb)[k].max,
    decreases col.len(),
{
    let r = merge_insert(col, new, climb);
    if col.len() == 0 {
        assert(r[0] == new);
    } else if col[0].min > new.max + climb {
        assert(r[0] == new);
    } else if col[0].max + climb < new.min {
        let tail = merge_insert(col.skip(1), new, climb);
        lemma_merge_insert_contains(col.skip(1), new, climb);
        let k = choose|k: int|
            0 <= k < tail.len() && (#[trigger] tail[k]).min <= new.min && new.max <= tail[k].max;
        assert(r[k + 1] == tail[k]);
    } else {
        let fused = fuse(new, col[0]);
        let tail = merge_insert(col.skip(1), fused, climb);
        lemma_merge_insert_contains(col.skip(1), fused, climb);
        let k = choose|k: int|
            0 <= k < tail.len() && (#[trigger] tail[k]).min <= fused.min && fused.max
                <= tail[k].max;
        assert(r[k] == tail[k]);
    }
}

/// Nothing is lost: a height that the column or the new interval held is
/// held by the merged column.
pub proof fn lemma_merge_insert_keeps(col: Seq<SpanData>, new: SpanData, climb: int, h: int)
    requires
        covers(col, h) || new.min <= h <= new.max,
    ensures
        covers(merge_insert(col, new, climb), h),
    decreases col.len(),
{
    let r = merge_insert(col, new, climb);
    if col.len() == 0 {
        assert(r[0] == new);
    } else if col[0].min > new.max + climb {
        if new.min <= h <= new.max {
            assert(r[0] == new);
        } else {
            let i = choose|i: int| 0 <= i < col.len() && (#[trigger] col[i]).min <= h <= col[i].max;
            assert(r[i + 1] == col[i]);
        }
    } else {
        let rest = col.skip(1);
        if col[0].min <= h <= col[0].max {
            if col[0].max + climb < new.min {
                assert(r[0] == col[0]);
            } else {
                lemma_merge_insert_keeps(rest, fuse(new, col[0]), climb, h);
            }
        } else {
            if !(new.min <= h <= new.max) {
                let i = choose|i: int|
                    0 <= i < col.len() && (#[trigger] col[i]).min <= h <= col[i].max;
                assert(rest[i - 1] == col[i]);
                assert(covers(rest, h));
            }
            if col[0].max + climb < new.min {
                let tail = merge_insert(rest, new, climb);
                lemma_merge_insert_keeps(rest, new, climb, h);
                let k = choose|k: int| 0 <= k < tail.len() && (#[trigger] tail[k]).min <= h <= tail[k].max;
                assert(r[k + 1] == tail[k]);
            } else {
                lemma_merge_insert_keeps(rest, fuse(new, col[0]), climb, h);
            }
        }
    }
}

} // verus!

verus! {

/// Whether the height lies in a gap that a merge may close: strictly
/// between two held heights that are no more than `climb` apart.
pub open spec fn bridged(held: spec_fn(int) -> bool, climb: int, h: int) -> bool {
    exists|lo: int, hi: int| #[trigger] is_bridge(held, climb, h, lo, hi)
}

/// Whether `lo` and `hi` are held heights around `h`, no more than `climb` apart.
pub open spec fn is_bridge(held: spec_fn(int) -> bool, climb: int, h: int, lo: int, hi: int) -> bool {
    lo < h < hi && hi - lo <= climb && held(lo) && held(hi)
}

/// The heights that a column or an interval holds.
pub open spec fn held_by(col: Seq<SpanData>, new: SpanData) -> spec_fn(int) -> bool {
    |h: int| covers(col, h) || new.min <= h <= new.max
}

/// The heights that some interval of a list holds.
pub open spec fn held_by_any(spans: Seq<SpanData>) -> spec_fn(int) -> bool {
    |h: int| covers(spans, h)
}

/// Closing gaps of closed gaps closes no new gaps. Where every height of
/// `mid` is a height of `base` or lies in a gap of `base`, a height of
/// `mid` or in a gap of `mid` is a height of `base` or lies in a gap of `base`.
pub proof fn lemma_bridge_closure(
    base: spec_fn(int) -> bool,
    mid: spec_fn(int) -> bool,
    climb: int,
    h: int,
)
    requires
        forall|x: int| #[trigger] mid(x) ==> base(x) || bridged(base, climb, x),
        mid(h) || bridged(mid, climb, h),
    ensures
        base(h) || bridged(base, climb, h),
{
    if mid(h) {
    } else {
        let (lo1, hi1) = choose|lo: int, hi: int| #[trigger] is_bridge(mid, climb, h, lo, hi);
        assert(mid(lo1) && mid(hi1));
        // a height of `base` at or above lo1 and below h, unless h is settled
        let mut lo = lo1;
        let mut settled = base(h);
        if !base(lo1) {
            let (a, b) = choose|a: int, b: int| #[trigger] is_bridge(base, climb, lo1, a, b);
            if h < b {
                assert(is_bridge(base, climb, h, a, b));
                settled = true;
            } else if h == b {
                settled = true;
            } else {
                lo = b;
            }
        }
        let mut hi = hi1;
        if !settled && !base(hi1) {
            let (a, b) = choose|a: int, b: int| #[trigger] is_bridge(base, climb, hi1, a, b);
            if h > a {
                assert(is_bridge(base, climb, h, a, b));
                settled = true;
            } else if h == a {
                settled = true;
            } else {
                hi = a;
            }
        }
        if !settled {
            assert(is_bridge(base, climb, h, lo, hi));
        }
    }
}

/// Nothing is made up: a height that the merged column holds was held by
/// the column or by the new interval, or lies in a gap between two such
/// heights that is no wider than the tolerance.
pub proof fn lemma_merge_insert_adds_bridges_only(
    col: Seq<SpanData>,
    new: SpanData,
    climb: int,
    h: int,
)
    requires
        ascending(col),
        new.min < new.max,
        climb >= 0,
        covers(merge_insert(col, new, climb), h),
    ensures
        held_by(col, new)(h) || bridged(held_by(col, new), climb, h),
    decreases col.len(),
{
    let r = merge_insert(col, new, climb);
    let base = held_by(col, new);
    let k = choose|k: int| 0 <= k < r.len() && (#[trigger] r[k]).min <= h <= r[k].max;
    if col.len() == 0 {
        assert(r[k] == new);
    } else if col[0].min > new.max + climb {
        if k > 0 {
            assert(r[k] == col[k - 1]);
        } else {
            assert(r[k] == new);
        }
    } else {
        let rest = col.skip(1);
        assert(ascending(rest)) by {
            assert forall|i: int, j: int| 0 <= i < j < rest.len() implies (#[trigger] rest[i]).max
                < (#[trigger] rest[j]).min by {
                assert(rest[i] == col[i + 1]);
                assert(rest[j] == col[j + 1]);
            }
            assert forall|i: int| 0 <= i < rest.len() implies (#[trigger] rest[i]).min
                < rest[i].max by {
                assert(rest[i] == col[i + 1]);
            }
        }
        assert forall|x: int| covers(rest, x) implies covers(col, x) by {
            let i = choose|i: int| 0 <= i < rest.len() && (#[trigger] rest[i]).min <= x <= rest[i].max;
            assert(col[i + 1] == rest[i]);
        }
        if col[0].max + climb < new.min {
            let tail = merge_insert(rest, new, climb);
            if k == 0 {
                assert(r[0] == col[0]);
                assert(covers(col, h));
            } else {
                assert(r[k] == tail[k - 1]);
                assert(covers(tail, h));
                lemma_merge_insert_adds_bridges_only(rest, new, climb, h);
                let mid = held_by(rest, new);
                assert forall|x: int| #[trigger] mid(x) implies base(x) || bridged(base, climb, x) by {}
                lemma_bridge_closure(base, mid, climb, h);
            }
        } else {
            let fused = fuse(new, col[0]);
            lemma_merge_insert_adds_bridges_only(rest, fused, climb, h);
            let mid = held_by(rest, fused);
            assert(col[0].min < col[0].max);
            assert(covers(col, col[0].min as int) && covers(col, col[0].max as int));
            assert forall|x: int| #[trigger] mid(x) implies base(x) || bridged(base, climb, x) by {
                if covers(rest, x) {
                } else if new.min <= x <= new.max {
                } else if col[0].min <= x <= col[0].max {
                    assert(covers(col, x));
                } else if new.max < x {
                    // between the end of the new interval and the span above it
                    assert(is_bridge(base, climb, x, new.max as int, col[0].min as int));
                } else {
                    assert(is_bridge(base, climb, x, col[0].max as int, new.min as int));
                }
            }
            lemma_bridge_closure(base, mid, climb, h);
        }
    }
}

/// The column that a list of intervals makes, inserted one after another
/// into an empty column with the same tolerance.
pub open spec fn merge_all(spans: Seq<SpanData>, climb: int) -> Seq<SpanData>
    decreases spans.len(),
{
    if spans.len() == 0 {
        Seq::empty()
    } else {
        merge_insert(merge_all(spans.drop_last(), climb), spans.last(), climb)
    }
}

/// Whatever intervals of positive height are inserted into a column, in
/// whatever order: the column ascends without overlap, it holds every
/// height that an interval held, and every other height that it holds lies
/// in a gap between two inserted heights no wider than the tolerance.
pub proof fn lemma_merge_all(spans: Seq<SpanData>, climb: int)
    requires
        climb >= 0,
        forall|i: int| 0 <= i < spans.len() ==> (#[trigger] spans[i]).min < spans[i].max,
    ensures
        ascending(merge_all(spans, climb)),
        forall|h: int| covers(spans, h) ==> covers(merge_all(spans, climb), h),
        forall|h: int| #[trigger]
            covers(merge_all(spans, climb), h) ==> covers(spans, h) || bridged(
                held_by_any(spans),
                climb,
                h,
            ),
    decreases spans.len(),
{
    let all = merge_all(spans, climb);
    if spans.len() == 0 {
    } else {
        let init = spans.drop_last();
        let last = spans.last();
        let before = merge_all(init, climb);
        lemma_merge_all(init, climb);
        lemma_merge_insert_ascending(before, last, climb);
        assert forall|x: int| covers(init, x) implies covers(spans, x) by {
            let i = choose|i: int| 0 <= i < init.len() && (#[trigger] init[i]).min <= x <= init[i].max;
            assert(spans[i] == init[i]);
        }
        assert forall|h: int| covers(spans, h) implies covers(all, h) by {
            let i = choose|i: int| 0 <= i < spans.len() && (#[trigger] spans[i]).min <= h <= spans[i].max;
            if i < init.len() {
                assert(init[i] == spans[i]);
                assert(covers(init, h));
            } else {
                assert(spans[i] == last);
            }
            lemma_merge_insert_keeps(before, last, climb, h);
        }
        let base = held_by_any(spans);
        let base0 = held_by_any(init);
        let mid = held_by(before, last);
        assert(covers(spans, last.min as int) && covers(spans, last.max as int)) by {
            assert(spans[spans.len() - 1] == last);
        }
        assert forall|x: int| #[trigger] mid(x) implies base(x) || bridged(base, climb, x) by {
            if covers(before, x) {
                if !covers(init, x) {
                    let (lo, hi) = choose|lo: int, hi: int| #[trigger] is_bridge(base0, climb, x, lo, hi);
                    assert(is_bridge(base, climb, x, lo, hi));
                }
            } else {
                assert(spans[spans.len() - 1] == last);
            }
        }
        assert forall|h: int| #[trigger] covers(all, h) implies covers(spans, h) || bridged(
            base,
            climb,
            h,
        ) by {
            lemma_merge_insert_adds_bridges_only(before, last, climb, h);
            lemma_bridge_closure(base, mid, climb, h);
        }
    }
}

} // verus!

verus! {

/// Number of spans in all columns of a grid.
pub open spec fn total_spans(columns: Seq<Seq<SpanData>>) -> nat
    decreases columns.len(),
{
    if columns.len() == 0 {
        0
    } else {
        total_spans(columns.drop_last()) + columns.last().len()
    }
}

/// A grid of empty columns has no spans.
pub proof fn lemma_total_spans_of_empty(columns: Seq<Seq<SpanData>>)
    requires
        forall|c: int| 0 <= c < columns.len() ==> (#[trigger] columns[c]).len() == 0,
    ensures
        total_spans(columns) == 0,
    decreases columns.len(),
{
    if columns.len() > 0 {
        let init = columns.drop_last();
        assert forall|c: int| 0 <= c < init.len() implies (#[trigger] init[c]).len() == 0 by {
            assert(init[c] == columns[c]);
        }
        lemma_total_spans_of_empty(init);
        assert(columns.last() == columns[columns.len() - 1]);
    }
}

/// Replacing one column changes the number of spans by the difference of
/// the two columns' lengths.
pub proof fn lemma_total_spans_update(columns: Seq<Seq<SpanData>>, c: int, column: Seq<SpanData>)
    requires
        0 <= c < columns.len(),
    ensures
        total_spans(columns.update(c, column)) == total_spans(columns) + column.len()
            - columns[c].len(),
        columns[c].len() <= total_spans(columns),
    decreases columns.len(),
{
    let updated = columns.update(c, column);
    if c == columns.len() - 1 {
        assert(updated.drop_last() =~= columns.drop_last());
        assert(updated.last() == column);
        assert(columns.last() == columns[c]);
    } else {
        let init = columns.drop_last();
        lemma_total_spans_update(init, c, column);
        assert(updated.drop_last() =~= init.update(c, column));
        assert(updated.last() == columns.last());
        assert(init[c] == columns[c]);
    }
}

} // verus!
