//! Which layers of a stack an edit touches.
use core::ops::{Range, RangeFrom, RangeFull, RangeInclusive, RangeTo, RangeToInclusive};
use vstd::prelude::*;
use vstd::std_specs::convert::{FromSpec, FromSpecImpl};

verus! {

/// `start..`, of std.
#[verifier::external_type_specification]
#[verifier::reject_recursive_types(Idx)]
pub struct ExRangeFrom<Idx>(RangeFrom<Idx>);

/// `..end`, of std.
#[verifier::external_type_specification]
#[verifier::reject_recursive_types(Idx)]
pub struct ExRangeTo<Idx>(RangeTo<Idx>);

/// `..=end`, of std.
#[verifier::external_type_specification]
#[verifier::reject_recursive_types(Idx)]
pub struct ExRangeToInclusive<Idx>(RangeToInclusive<Idx>);

/// `..`, of std.
#[verifier::external_type_specification]
pub struct ExRangeFull(RangeFull);

/// The layers that an edit is for.
#[derive(Clone, Copy, PartialEq, Eq, Structural, Debug, Default)]
pub enum AffectedLayer {
    /// Every layer; an edit that adds pixels makes a layer of its own.
    #[default]
    Unspecified,
    Layer(usize),
    /// Layers in the half-open range `start..end`, or `start..` when `end` is `None`.
    Range(usize, Option<usize>),
}

impl AffectedLayer {
    pub open spec fn affects_layer(self, layer: int) -> bool {
        match self {
            AffectedLayer::Unspecified => true,
            AffectedLayer::Layer(index) => index == layer,
            AffectedLayer::Range(start, Some(end)) => start <= layer < end,
            AffectedLayer::Range(start, None) => start <= layer,
        }
    }

    /// Whether the edit touches the given layer.
    pub fn affects(&self, layer: usize) -> (affected: bool)
        ensures
            affected == self.affects_layer(layer as int),
            self is Unspecified ==> affected,
            *self matches AffectedLayer::Layer(index) ==> affected == (index == layer),
            *self matches AffectedLayer::Range(start, Some(end)) ==> affected == (start <= layer
                && layer < end),
            *self matches AffectedLayer::Range(start, None) ==> affected == (start <= layer),
    {
        match self {
            AffectedLayer::Unspecified => true,
            AffectedLayer::Layer(index) => *index == layer,
            AffectedLayer::Range(start, end) => match end {
                Some(end) => *start <= layer && layer < *end,
                None => *start <= layer,
            },
        }
    }
}

/// The end of the half-open range that ends with `last`; open where that end is not a `usize`.
pub open spec fn past(last: usize) -> Option<usize> {
    if last < usize::MAX {
        Some((last + 1) as usize)
    } else {
        None
    }
}

impl From<usize> for AffectedLayer {
    fn from(layer: usize) -> (affected: Self)
        ensures
            affected == AffectedLayer::Layer(layer),
    {
        AffectedLayer::Layer(layer)
    }
}

impl FromSpecImpl<usize> for AffectedLayer {
    open spec fn obeys_from_spec() -> bool {
        true
    }

    open spec fn from_spec(layer: usize) -> Self {
        AffectedLayer::Layer(layer)
    }
}

impl From<Range<usize>> for AffectedLayer {
    fn from(range: Range<usize>) -> (affected: Self)
        ensures
            affected == AffectedLayer::Range(range.start, Some(range.end)),
    {
        AffectedLayer::Range(range.start, Some(range.end))
    }
}

impl FromSpecImpl<Range<usize>> for AffectedLayer {
    open spec fn obeys_from_spec() -> bool {
        true
    }

    open spec fn from_spec(range: Range<usize>) -> Self {
        AffectedLayer::Range(range.start, Some(range.end))
    }
}

impl From<RangeFrom<usize>> for AffectedLayer {
    fn from(range: RangeFrom<usize>) -> (affected: Self)
        ensures
            affected == AffectedLayer::Range(range.start, None),
    {
        AffectedLayer::Range(range.start, None)
    }
}

impl FromSpecImpl<RangeFrom<usize>> for AffectedLayer {
    open spec fn obeys_from_spec() -> bool {
        true
    }

    open spec fn from_spec(range: RangeFrom<usize>) -> Self {
        AffectedLayer::Range(range.start, None)
    }
}

/// `std::ops::RangeInclusive::into_inner`: the lower and the upper bound of the range. What it
/// returns of a range that an iteration has used up, std leaves open, and nothing is said of it.
#[verifier::external_body]
fn inclusive_into_inner(range: RangeInclusive<usize>) -> (bounds: (usize, usize))
    ensures
        !range@.exhausted ==> bounds == (range@.start, range@.end),
{
    range.into_inner()
}

impl From<RangeInclusive<usize>> for AffectedLayer {
    fn from(range: RangeInclusive<usize>) -> (affected: Self)
        ensures
            !range@.exhausted ==> affected == AffectedLayer::Range(range@.start, past(range@.end)),
    {
        let (start, last) = inclusive_into_inner(range);
        AffectedLayer::Range(start, last.checked_add(1))
    }
}

impl FromSpecImpl<RangeInclusive<usize>> for AffectedLayer {
    /// Nothing is said of a range that an iteration has used up; what holds of the others stands
    /// with the conversion itself.
    open spec fn obeys_from_spec() -> bool {
        false
    }

    open spec fn from_spec(range: RangeInclusive<usize>) -> Self {
        arbitrary()
    }
}

impl From<RangeTo<usize>> for AffectedLayer {
    fn from(range: RangeTo<usize>) -> (affected: Self)
        ensures
            affected == AffectedLayer::Range(0, Some(range.end)),
    {
        AffectedLayer::Range(0, Some(range.end))
    }
}

impl FromSpecImpl<RangeTo<usize>> for AffectedLayer {
    open spec fn obeys_from_spec() -> bool {
        true
    }

    open spec fn from_spec(range: RangeTo<usize>) -> Self {
        AffectedLayer::Range(0, Some(range.end))
    }
}

impl From<RangeToInclusive<usize>> for AffectedLayer {
    fn from(range: RangeToInclusive<usize>) -> (affected: Self)
        ensures
            affected == AffectedLayer::Range(0, past(range.end)),
    {
        AffectedLayer::Range(0, range.end.checked_add(1))
    }
}

impl FromSpecImpl<RangeToInclusive<usize>> for AffectedLayer {
    open spec fn obeys_from_spec() -> bool {
        true
    }

    open spec fn from_spec(range: RangeToInclusive<usize>) -> Self {
        AffectedLayer::Range(0, past(range.end))
    }
}

impl From<RangeFull> for AffectedLayer {
    fn from(_range: RangeFull) -> (affected: Self)
        ensures
            affected == AffectedLayer::Range(0, None),
    {
        AffectedLayer::Range(0, None)
    }
}

impl FromSpecImpl<RangeFull> for AffectedLayer {
    open spec fn obeys_from_spec() -> bool {
        true
    }

    open spec fn from_spec(_range: RangeFull) -> Self {
        AffectedLayer::Range(0, None)
    }
}

/// An index affects its layer, and a range of layers affects the layers that it contains, also
/// where its last layer is the last that there can be.
pub proof fn conversions_affect_what_they_contain(
    index: usize,
    range: Range<usize>,
    from: RangeFrom<usize>,
    inclusive: RangeInclusive<usize>,
    to: RangeTo<usize>,
    to_inclusive: RangeToInclusive<usize>,
    full: RangeFull,
    layer: usize,
)
    requires
        !inclusive@.exhausted,
    ensures
        <AffectedLayer as FromSpec<usize>>::from_spec(index).affects_layer(layer as int) == (layer
            == index),
        <AffectedLayer as FromSpec<Range<usize>>>::from_spec(range).affects_layer(layer as int) == (
        range.start <= layer < range.end),
        <AffectedLayer as FromSpec<RangeFrom<usize>>>::from_spec(from).affects_layer(layer as int)
            == (from.start <= layer),
        forall|affected: AffectedLayer| #[trigger]
            call_ensures(
                <AffectedLayer as From<RangeInclusive<usize>>>::from,
                (inclusive,),
                affected,
            ) ==> affected.affects_layer(layer as int) == (inclusive@.start <= layer
                <= inclusive@.end),
        <AffectedLayer as FromSpec<RangeTo<usize>>>::from_spec(to).affects_layer(layer as int) == (
        layer < to.end),
        <AffectedLayer as FromSpec<RangeToInclusive<usize>>>::from_spec(to_inclusive).affects_layer(
            layer as int,
        ) == (layer <= to_inclusive.end),
        <AffectedLayer as FromSpec<RangeFull>>::from_spec(full).affects_layer(layer as int),
{
}

/// What the variants are for: an unspecified edit is for every layer, an edit of a layer for that
/// layer alone, and an edit of a range for the layers from its start on and before its end.
pub proof fn variants_affect_their_layers(index: usize, start: usize, end: usize, layer: int)
    requires
        0 <= layer,
    ensures
        AffectedLayer::Unspecified.affects_layer(layer),
        AffectedLayer::Layer(index).affects_layer(layer) <==> layer == index,
        AffectedLayer::Range(start, Some(end)).affects_layer(layer) <==> start <= layer && layer < end,
        AffectedLayer::Range(start, None).affects_layer(layer) <==> start <= layer,
{
}

/// An index names one layer, which an edit may make; ranges of any kind name layers that are there.
pub proof fn conversions_keep_their_kind(
    index: usize,
    range: Range<usize>,
    from: RangeFrom<usize>,
    inclusive: RangeInclusive<usize>,
    to: RangeTo<usize>,
    to_inclusive: RangeToInclusive<usize>,
    full: RangeFull,
)
    requires
        !inclusive@.exhausted,
    ensures
        <AffectedLayer as FromSpec<usize>>::obeys_from_spec(),
        <AffectedLayer as FromSpec<Range<usize>>>::obeys_from_spec(),
        <AffectedLayer as FromSpec<RangeFrom<usize>>>::obeys_from_spec(),
        <AffectedLayer as FromSpec<RangeTo<usize>>>::obeys_from_spec(),
        <AffectedLayer as FromSpec<RangeToInclusive<usize>>>::obeys_from_spec(),
        <AffectedLayer as FromSpec<RangeFull>>::obeys_from_spec(),
        <AffectedLayer as FromSpec<usize>>::from_spec(index) is Layer,
        <AffectedLayer as FromSpec<Range<usize>>>::from_spec(range) is Range,
        <AffectedLayer as FromSpec<RangeFrom<usize>>>::from_spec(from) is Range,
        forall|affected: AffectedLayer| #[trigger]
            call_ensures(
                <AffectedLayer as From<RangeInclusive<usize>>>::from,
                (inclusive,),
                affected,
            ) ==> affected is Range,
        <AffectedLayer as FromSpec<RangeTo<usize>>>::from_spec(to) is Range,
        <AffectedLayer as FromSpec<RangeToInclusive<usize>>>::from_spec(to_inclusive) is Range,
        <AffectedLayer as FromSpec<RangeFull>>::from_spec(full) is Range,
{
}

} // verus!
