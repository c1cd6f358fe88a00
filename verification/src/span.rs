//! Height intervals of a column and the handles that link them.

use vstd::prelude::*;

verus! {

/// Area tag of geometry on which nobody can walk.
pub const NULL_AREA: u8 = 0;

/// Area tag that the walkability pass gives to every triangle flat enough to walk on.
pub const DEFAULT_WALKABLE_AREA: u8 = 63;

/// Classification of a triangle or a span. Tag `0` is not walkable; every
/// other tag is, and among walkable tags the larger one takes precedence.
#[derive(Clone, Copy, PartialEq, Eq, Debug)]
pub struct AreaType(pub u8);

impl AreaType {
    /// The tag of unwalkable geometry.
    pub fn null() -> (r: Self)
        ensures
            r.0 == NULL_AREA,
    {
        AreaType(NULL_AREA)
    }

    /// The tag given to triangles whose slope is walkable.
    pub fn default_walkable() -> (r: Self)
        ensures
            r.0 == DEFAULT_WALKABLE_AREA,
    {
        AreaType(DEFAULT_WALKABLE_AREA)
    }

    /// Whether the tag denotes walkable geometry.
    pub fn is_walkable(&self) -> (r: bool)
        ensures
            r == (self.0 != NULL_AREA),
    {
        self.0 != NULL_AREA
    }
}

/// Handle of a span in a [`crate::arena::Spans`] arena: a slot index in the
/// low 32 bits and the slot's generation in the high 32 bits.
#[derive(Clone, Copy, PartialEq, Eq, Debug)]
pub struct SpanKey {
    pub(crate) raw: u64,
}

impl SpanKey {
    /// Whether the generation is odd. Every handle that an arena issues has
    /// an odd generation; a handle with an even one names no span.
    pub closed spec fn is_issued(self) -> bool {
        (self.raw >> 32) & 1 == 1
    }

    /// Runtime test of [`SpanKey::is_issued`].
    pub fn has_odd_generation(&self) -> (r: bool)
        ensures
            r == self.is_issued(),
    {
        (self.raw >> 32) & 1 == 1
    }

    /// Runtime equality of handles.
    pub fn same(&self, other: &SpanKey) -> (r: bool)
        ensures
            r == (*self == *other),
    {
        self.raw == other.raw
    }
}

/// Plain description of a span, turned into a [`Span`] by [`SpanBuilder::build`].
pub struct SpanBuilder {
    pub min: u16,
    pub max: u16,
    pub area: u8,
    pub next: Option<SpanKey>,
}

impl SpanBuilder {
    /// The span with exactly the builder's four values.
    pub fn build(self) -> (span: Span)
        ensures
            span.spec_min() == self.min,
            span.spec_max() == self.max,
            span.spec_area() == self.area,
            span.spec_next() == self.next,
    {
        Span { min: self.min, max: self.max, area: self.area, next: self.next }
    }
}

impl From<SpanBuilder> for Span {
    fn from(builder: SpanBuilder) -> (span: Span) {
        builder.build()
    }
}

impl vstd::std_specs::convert::FromSpecImpl<SpanBuilder> for Span {
    open spec fn obeys_from_spec() -> bool {
        true
    }

    open spec fn from_spec(builder: SpanBuilder) -> Span {
        Span::spec_new(builder.min, builder.max, builder.area, builder.next)
    }
}

/// What a span says of its column, without its link: the two heights and
/// the area tag.
#[derive(Clone, Copy, PartialEq, Eq, Debug)]
pub struct SpanData {
    pub min: u16,
    pub max: u16,
    pub area: u8,
}

/// One solid height interval of a column, in voxel units.
#[derive(Clone, Copy, PartialEq, Eq, Debug)]
pub struct Span {
    /// Height of the floor.
    min: u16,
    /// Height of the ceiling.
    max: u16,
    /// Area tag.
    area: u8,
    /// Handle of the next-higher span of the same column.
    next: Option<SpanKey>,
}

impl Span {
    /// The span with the four values.
    pub closed spec fn spec_new(min: u16, max: u16, area: u8, next: Option<SpanKey>) -> Span {
        Span { min, max, area, next }
    }

    /// Height of the floor.
    pub closed spec fn spec_min(&self) -> u16 {
        self.min
    }

    /// Height of the ceiling.
    pub closed spec fn spec_max(&self) -> u16 {
        self.max
    }

    /// Area tag.
    pub closed spec fn spec_area(&self) -> u8 {
        self.area
    }

    /// Handle of the next-higher span of the same column.
    pub closed spec fn spec_next(&self) -> Option<SpanKey> {
        self.next
    }

    /// The span without its link.
    pub open spec fn data(&self) -> SpanData {
        SpanData { min: self.spec_min(), max: self.spec_max(), area: self.spec_area() }
    }

    /// A span has the four values that it was made of.
    pub proof fn lemma_fields(min: u16, max: u16, area: u8, next: Option<SpanKey>)
        ensures
            Span::spec_new(min, max, area, next).spec_min() == min,
            Span::spec_new(min, max, area, next).spec_max() == max,
            Span::spec_new(min, max, area, next).spec_area() == area,
            Span::spec_new(min, max, area, next).spec_next() == next,
    {
    }

    #[verifier::when_used_as_spec(spec_min)]
    pub fn min(&self) -> (r: u16)
        ensures
            r == self.spec_min(),
    {
        self.min
    }

    pub fn set_min(&mut self, min: u16)
        ensures
            final(self).spec_min() == min,
            final(self).spec_max() == old(self).spec_max(),
            final(self).spec_area() == old(self).spec_area(),
            final(self).spec_next() == old(self).spec_next(),
    {
        self.min = min;
    }

    #[verifier::when_used_as_spec(spec_max)]
    pub fn max(&self) -> (r: u16)
        ensures
            r == self.spec_max(),
    {
        self.max
    }

    pub fn set_max(&mut self, max: u16)
        ensures
            final(self).spec_min() == old(self).spec_min(),
            final(self).spec_max() == max,
            final(self).spec_area() == old(self).spec_area(),
            final(self).spec_next() == old(self).spec_next(),
    {
        self.max = max;
    }

    #[verifier::when_used_as_spec(spec_area)]
    pub fn area(&self) -> (r: u8)
        ensures
            r == self.spec_area(),
    {
        self.area
    }

    pub fn set_area(&mut self, area: u8)
        ensures
            final(self).spec_min() == old(self).spec_min(),
            final(self).spec_max() == old(self).spec_max(),
            final(self).spec_area() == area,
            final(self).spec_next() == old(self).spec_next(),
    {
        self.area = area;
    }

    #[verifier::when_used_as_spec(spec_next)]
    pub fn next(&self) -> (r: Option<SpanKey>)
        ensures
            r == self.spec_next(),
    {
        self.next
    }

    pub fn set_next(&mut self, next: Option<SpanKey>)
        ensures
            final(self).spec_min() == old(self).spec_min(),
            final(self).spec_max() == old(self).spec_max(),
            final(self).spec_area() == old(self).spec_area(),
            final(self).spec_next() == next,
    {
        self.next = next;
    }
}

} // verus!
