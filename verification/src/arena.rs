//! The span arena: a generation-checked slot map of spans.

use vstd::prelude::*;
use slotmap::{DefaultKey, Key, KeyData, SlotMap};
use crate::span::{Span, SpanKey};

verus! {

/// The slot map of the arena. Nothing of it is visible to proofs but what
/// [`arena_entries`] and [`arena_floor`] name.
#[verifier::external_body]
pub struct SpanSlots {
    map: SlotMap<DefaultKey, Span>,
}

/// What a slot map holds: each live handle with the span stored under it.
pub uninterp spec fn arena_entries(m: SpanSlots) -> Map<SpanKey, Span>;

/// The capacity that a slot map was created with.
pub uninterp spec fn arena_floor(m: SpanSlots) -> nat;

/// Most spans that an arena holds at a time.
pub const MAX_SPANS: usize = 0xffff_fffe;

/// `SlotMap::with_capacity`: an empty map, remembered with the capacity asked
/// for. The argument stays under `usize::MAX` because the map adds one slot
/// of its own to it.
#[verifier::external_body]
fn arena_with_capacity(capacity: usize) -> (m: SpanSlots)
    requires
        capacity < usize::MAX,
    ensures
        arena_entries(m) == (Map::<SpanKey, Span>::empty()),
        arena_floor(m) == capacity,
{
    SpanSlots { map: SlotMap::with_capacity(capacity) }
}

/// `SlotMap::len`: the number of live handles.
#[verifier::external_body]
fn arena_len(m: &SpanSlots) -> (n: usize)
    ensures
        n == arena_entries(*m).dom().len(),
{
    m.map.len()
}

/// `SlotMap::capacity`: never under the capacity that the map was created with.
#[verifier::external_body]
fn arena_capacity(m: &SpanSlots) -> (n: usize)
    ensures
        n >= arena_floor(*m),
{
    m.map.capacity()
}

/// `SlotMap::insert`: stores the span under a handle that was not live, with
/// an odd generation, and leaves every other entry alone. The map panics when
/// all of its `u32::MAX - 1` usable slots are live, so the caller stays below.
#[verifier::external_body]
fn arena_insert(m: &mut SpanSlots, span: Span) -> (key: SpanKey)
    requires
        arena_entries(*old(m)).dom().len() < MAX_SPANS,
    ensures
        !arena_entries(*old(m)).dom().contains(key),
        key.is_issued(),
        arena_entries(*final(m)) == arena_entries(*old(m)).insert(key, span),
        arena_floor(*final(m)) == arena_floor(*old(m)),
{
    SpanKey { raw: m.map.insert(span).data().as_ffi() }
}

/// `SlotMap::get`, on a handle with an odd generation: the span stored under
/// the handle if it is live, nothing otherwise.
#[verifier::external_body]
fn arena_get(m: &SpanSlots, key: SpanKey) -> (r: Option<Span>)
    requires
        key.is_issued(),
    ensures
        r == (if arena_entries(*m).dom().contains(key) {
            Some(arena_entries(*m)[key])
        } else {
            None
        }),
{
    m.map.get(DefaultKey::from(KeyData::from_ffi(key.raw))).copied()
}

/// `SlotMap::get_mut`, on a handle with an odd generation: access to the span
/// stored under a live handle. Whatever is written through it replaces that
/// one entry.
#[verifier::external_body]
fn arena_get_mut(m: &mut SpanSlots, key: SpanKey) -> (r: Option<&mut Span>)
    requires
        key.is_issued(),
    ensures
        arena_floor(*final(m)) == arena_floor(*old(m)),
        match r {
            Some(span) => arena_entries(*old(m)).dom().contains(key)
                && *span == arena_entries(*old(m))[key]
                && arena_entries(*final(m)) == arena_entries(*old(m)).insert(key, *final(span)),
            None => !arena_entries(*old(m)).dom().contains(key)
                && arena_entries(*final(m)) == arena_entries(*old(m)),
        },
{
    m.map.get_mut(DefaultKey::from(KeyData::from_ffi(key.raw)))
}

/// `SlotMap::remove`, on a handle with an odd generation: takes a live
/// handle's span out of the map and returns it; a handle that is not live
/// changes nothing.
#[verifier::external_body]
fn arena_remove(m: &mut SpanSlots, key: SpanKey) -> (r: Option<Span>)
    requires
        key.is_issued(),
    ensures
        r == (if arena_entries(*old(m)).dom().contains(key) {
            Some(arena_entries(*old(m))[key])
        } else {
            None
        }),
        arena_entries(*final(m)) == arena_entries(*old(m)).remove(key),
        arena_floor(*final(m)) == arena_floor(*old(m)),
{
    m.map.remove(DefaultKey::from(KeyData::from_ffi(key.raw)))
}

/// Arena of spans. Handles are generation-checked: one that was removed, or
/// never issued, finds nothing.
pub struct Spans {
    slots: SpanSlots,
}

impl View for Spans {
    type V = Map<SpanKey, Span>;

    closed spec fn view(&self) -> Map<SpanKey, Span> {
        arena_entries(self.slots)
    }
}

impl Spans {
    /// An arena holds finitely many spans.
    pub closed spec fn wf(&self) -> bool {
        arena_entries(self.slots).dom().finite()
    }

    /// Smallest capacity that an arena is created with.
    pub const DEFAULT_CAPACITY: usize = 1024;

    /// A well-formed arena has a finite domain.
    pub broadcast proof fn lemma_wf_finite(&self)
        requires
            #[trigger] self.wf(),
        ensures
            self@.dom().finite(),
    {
    }

    /// The capacity that the arena was created with.
    pub closed spec fn floor(&self) -> nat {
        arena_floor(self.slots)
    }

    /// An empty arena with room for `min_capacity` spans, and for
    /// [`Spans::DEFAULT_CAPACITY`] at least.
    pub fn with_min_capacity(min_capacity: usize) -> (spans: Self)
        requires
            min_capacity < usize::MAX,
        ensures
            spans.wf(),
            spans@ == Map::<SpanKey, Span>::empty(),
            spans.floor() == if min_capacity >= 1024 { min_capacity } else { 1024 },
    {
        let capacity = if min_capacity >= Self::DEFAULT_CAPACITY {
            min_capacity
        } else {
            Self::DEFAULT_CAPACITY
        };
        Spans { slots: arena_with_capacity(capacity) }
    }

    /// Number of live spans.
    pub fn len(&self) -> (n: usize)
        requires
            self.wf(),
        ensures
            self@.dom().finite(),
            n == self@.dom().len(),
    {
        arena_len(&self.slots)
    }

    /// Number of spans that the arena holds without growing.
    pub fn capacity(&self) -> (n: usize)
        ensures
            n >= self.floor(),
    {
        arena_capacity(&self.slots)
    }

    /// Stores a span and returns its handle, or returns `None` and stores
    /// nothing when the arena already holds [`MAX_SPANS`] spans.
    pub fn insert(&mut self, span: Span) -> (r: Option<SpanKey>)
        requires
            old(self).wf(),
        ensures
            final(self).wf(),
            final(self).floor() == old(self).floor(),
            match r {
                Some(key) => old(self)@.dom().len() < MAX_SPANS
                    && !old(self)@.dom().contains(key)
                    && key.is_issued()
                    && final(self)@ == old(self)@.insert(key, span),
                None => old(self)@.dom().len() >= MAX_SPANS && final(self)@ == old(self)@,
            },
    {
        if arena_len(&self.slots) < MAX_SPANS {
            Some(arena_insert(&mut self.slots, span))
        } else {
            None
        }
    }

    /// The span under a handle, or `None` for a handle that is not live.
    pub fn get(&self, key: SpanKey) -> (r: Option<Span>)
        ensures
            r == (if self@.dom().contains(key) && key.is_issued() {
                Some(self@[key])
            } else {
                None
            }),
    {
        if key.has_odd_generation() {
            arena_get(&self.slots, key)
        } else {
            None
        }
    }

    /// Replaces the span under a live handle and returns `true`; for a handle
    /// that is not live, changes nothing and returns `false`.
    pub fn set(&mut self, key: SpanKey, span: Span) -> (r: bool)
        requires
            old(self).wf(),
        ensures
            final(self).wf(),
            final(self).floor() == old(self).floor(),
            r == (old(self)@.dom().contains(key) && key.is_issued()),
            final(self)@ == (if r { old(self)@.insert(key, span) } else { old(self)@ }),
    {
        if key.has_odd_generation() {
            match arena_get_mut(&mut self.slots, key) {
                Some(slot) => {
                    *slot = span;
                    true
                },
                None => false,
            }
        } else {
            false
        }
    }

    /// Removes the span under a live handle and returns it; for a handle that
    /// is not live, changes nothing and returns `None`.
    pub fn remove(&mut self, key: SpanKey) -> (r: Option<Span>)
        requires
            old(self).wf(),
        ensures
            final(self).wf(),
            final(self).floor() == old(self).floor(),
            r == (if old(self)@.dom().contains(key) && key.is_issued() {
                Some(old(self)@[key])
            } else {
                None
            }),
            final(self)@ == (if r.is_some() { old(self)@.remove(key) } else { old(self)@ }),
    {
        if key.has_odd_generation() {
            arena_remove(&mut self.slots, key)
        } else {
            None
        }
    }
}

} // verus!
