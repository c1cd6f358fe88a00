use recast::arena::MAX_SPANS;
use recast::{AreaType, Span, SpanBuilder, SpanKey, Spans};

fn span() -> Span {
    SpanBuilder {
        min: 2,
        max: 10,
        area: 4,
        next: None,
    }
    .build()
}

#[test]
fn can_retrieve_span_data_after_building() {
    let span = span();
    assert_eq!(span.min(), 2);
    assert_eq!(span.max(), 10);
    assert_eq!(span.area(), 4);
    assert_eq!(span.next(), None);
}

#[test]
fn can_retrieve_span_data_after_setting() {
    let mut span = span();
    let mut spans = Spans::with_min_capacity(0);
    let span_key: SpanKey = spans.insert(span.clone()).unwrap();

    span.set_min(1);
    span.set_max(4);
    span.set_area(3);
    span.set_next(Some(span_key));

    assert_eq!(span.min(), 1);
    assert_eq!(span.max(), 4);
    assert_eq!(span.area(), 3);
    assert_eq!(span.next(), Some(span_key));
}

#[test]
fn span_from_builder_equals_built_span() {
    let built = span();
    let converted = Span::from(SpanBuilder {
        min: 2,
        max: 10,
        area: 4,
        next: None,
    });
    assert_eq!(built, converted);
}

#[test]
fn setters_change_one_value_each() {
    let mut s = span();
    s.set_area(7);
    assert_eq!((s.min(), s.max(), s.area(), s.next()), (2, 10, 7, None));
    s.set_min(3);
    assert_eq!((s.min(), s.max(), s.area(), s.next()), (3, 10, 7, None));
    s.set_max(11);
    assert_eq!((s.min(), s.max(), s.area(), s.next()), (3, 11, 7, None));
}

#[test]
fn area_types_have_their_tags() {
    assert_eq!(AreaType::null().0, 0);
    assert_eq!(AreaType::default_walkable().0, 63);
    assert!(!AreaType::null().is_walkable());
    assert!(AreaType::default_walkable().is_walkable());
    assert!(AreaType(1).is_walkable());
}

#[test]
fn arena_starts_empty_with_default_capacity() {
    let spans = Spans::with_min_capacity(0);
    assert_eq!(spans.len(), 0);
    assert!(spans.capacity() >= 1024);
    assert_eq!(Spans::DEFAULT_CAPACITY, 1024);
}

#[test]
fn arena_honours_larger_capacity() {
    let spans = Spans::with_min_capacity(5000);
    assert!(spans.capacity() >= 5000);
    assert_eq!(spans.len(), 0);
}

#[test]
fn arena_insert_then_get() {
    let mut spans = Spans::with_min_capacity(0);
    let a = spans.insert(span()).unwrap();
    let other = SpanBuilder {
        min: 20,
        max: 30,
        area: 0,
        next: Some(a),
    }
    .build();
    let b = spans.insert(other).unwrap();
    assert_ne!(a, b);
    assert!(a.has_odd_generation());
    assert!(b.has_odd_generation());
    assert_eq!(spans.len(), 2);
    assert_eq!(spans.get(a), Some(span()));
    assert_eq!(spans.get(b), Some(other));
    assert_eq!(spans.get(b).unwrap().next(), Some(a));
}

#[test]
fn arena_set_replaces_one_entry() {
    let mut spans = Spans::with_min_capacity(0);
    let a = spans.insert(span()).unwrap();
    let b = spans.insert(span()).unwrap();
    let mut changed = span();
    changed.set_area(9);
    assert!(spans.set(a, changed));
    assert_eq!(spans.get(a).unwrap().area(), 9);
    assert_eq!(spans.get(b).unwrap().area(), 4);
    assert_eq!(spans.len(), 2);
}

#[test]
fn arena_remove_returns_the_span_once() {
    let mut spans = Spans::with_min_capacity(0);
    let a = spans.insert(span()).unwrap();
    assert_eq!(spans.remove(a), Some(span()));
    assert_eq!(spans.len(), 0);
    assert_eq!(spans.remove(a), None);
    assert_eq!(spans.len(), 0);
}

#[test]
fn stale_key_fails_lookup_after_slot_reuse() {
    let mut spans = Spans::with_min_capacity(0);
    let old = spans.insert(span()).unwrap();
    assert!(spans.remove(old).is_some());
    let fresh = spans
        .insert(
            SpanBuilder {
                min: 40,
                max: 50,
                area: 1,
                next: None,
            }
            .build(),
        )
        .unwrap();
    assert_ne!(old, fresh);
    assert_eq!(spans.get(old), None);
    assert!(!spans.set(old, span()));
    assert_eq!(spans.remove(old), None);
    assert_eq!(spans.get(fresh).unwrap().min(), 40);
    assert_eq!(spans.len(), 1);
}

#[test]
fn key_of_another_arena_with_no_such_slot_finds_nothing() {
    let mut first = Spans::with_min_capacity(0);
    let mut second = Spans::with_min_capacity(0);
    first.insert(span()).unwrap();
    let k = first.insert(span()).unwrap();
    second.insert(span()).unwrap();
    assert_eq!(second.get(k), None);
    assert!(k.same(&k));
}

#[test]
fn arena_limit_is_below_the_slot_count() {
    assert_eq!(MAX_SPANS, 0xffff_fffe);
}
