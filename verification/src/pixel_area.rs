//! Colored pixel regions, and the layers that may hold one.
use crate::color::{color_at_position, position_color};
use crate::ranges::SortedRanges;
use crate::span::{pixels, Span};
use vstd::prelude::*;

verus! {

/// What a layer shows: its pixels, none where the layer is empty, and its color.
#[verifier::ext_equal]
pub struct LayerModel {
    pub color: [u8; 4],
    pub pixels: Set<(int, int)>,
}

/// An empty layer in the color of its position.
pub open spec fn blank_layer(position: int) -> LayerModel {
    LayerModel { color: position_color(position), pixels: Set::empty() }
}

/// A non-empty pixel region in one color.
#[derive(Debug, PartialEq, Eq)]
#[non_exhaustive]
pub struct PixelArea {
    pub pixels: SortedRanges,
    pub color: [u8; 4],
}

impl View for PixelArea {
    type V = LayerModel;

    open spec fn view(&self) -> LayerModel {
        LayerModel { color: self.color, pixels: self.pixels@ }
    }
}

impl PixelArea {
    /// The area of the given runs; `None` where there is no run.
    pub fn new(spans: &[Span], color: [u8; 4]) -> (area: Option<PixelArea>)
        requires
            forall|i: int| 0 <= i < spans@.len() ==> (#[trigger] spans@[i]).wf(),
        ensures
            area is Some <==> spans@.len() > 0,
            area matches Some(a) ==> a@ == (LayerModel { color, pixels: pixels(spans@) }),
    {
        match SortedRanges::try_from_span_iter(spans) {
            Some(ranges) => Some(PixelArea { pixels: ranges, color }),
            None => None,
        }
    }

    /// The area of the given runs in opaque black; `None` where there is no run.
    pub fn with_black_color(spans: &[Span]) -> (area: Option<PixelArea>)
        requires
            forall|i: int| 0 <= i < spans@.len() ==> (#[trigger] spans@[i]).wf(),
        ensures
            area is Some <==> spans@.len() > 0,
            area matches Some(a) ==> a@ == (LayerModel {
                color: [0u8, 0u8, 0u8, 255u8],
                pixels: pixels(spans@),
            }),
    {
        PixelArea::new(spans, [0u8, 0u8, 0u8, 255u8])
    }

    /// The `len` pixels from `(x, y)` to the right.
    pub fn single_pixel_total_color(x: u16, y: u16, len: u16, color: [u8; 4]) -> (area: PixelArea)
        requires
            0 < len,
            x + len <= u16::MAX,
        ensures
            area@ == (LayerModel {
                color,
                pixels: pixels(seq![Span { start: x as u32, end: (x + len) as u32, y: y as u32 }]),
            }),
    {
        let span = Span { start: x as u32, end: x as u32 + len as u32, y: y as u32 };
        PixelArea { pixels: SortedRanges::from_span(span), color }
    }

    /// The `len` pixels from `(x, y)` to the right, in opaque black.
    pub fn single_range_total_black(x: u16, y: u16, len: u16) -> (area: PixelArea)
        requires
            0 < len,
            x + len <= u16::MAX,
        ensures
            area@ == (LayerModel {
                color: [0u8, 0u8, 0u8, 255u8],
                pixels: pixels(seq![Span { start: x as u32, end: (x + len) as u32, y: y as u32 }]),
            }),
    {
        PixelArea::single_pixel_total_color(x, y, len, [0u8, 0u8, 0u8, 255u8])
    }

    pub fn from_ranges(pixels: SortedRanges, color: [u8; 4]) -> (area: PixelArea)
        ensures
            area.pixels == pixels,
            area.color == color,
    {
        PixelArea { pixels, color }
    }

    /// How many runs the area has.
    pub fn range_len(&self) -> (n: usize)
        ensures
            n == self.pixels.run_list().len(),
            n > 0,
    {
        self.pixels.len()
    }

    /// Whether both areas have the same pixels and color.
    pub fn same(&self, other: &PixelArea) -> (same: bool)
        ensures
            same == (self@ == other@),
    {
        self.pixels == other.pixels && colors_equal(&self.color, &other.color)
    }
}

impl Clone for PixelArea {
    fn clone(&self) -> (copy: Self)
        ensures
            copy@ == self@,
            copy.pixels.run_list() == self.pixels.run_list(),
    {
        PixelArea { pixels: self.pixels.clone(), color: self.color }
    }
}

pub(crate) fn colors_equal(a: &[u8; 4], b: &[u8; 4]) -> (same: bool)
    ensures
        same == (*a == *b),
{
    if a[0] == b[0] && a[1] == b[1] && a[2] == b[2] && a[3] == b[3] {
        assert(*a =~= *b);
        true
    } else {
        false
    }
}

/// One layer of a stack: empty, or filled with an area. Both have a color.
#[derive(Debug, PartialEq, Eq)]
pub enum Layer {
    Empty([u8; 4]),
    Filled(PixelArea),
}

impl View for Layer {
    type V = LayerModel;

    open spec fn view(&self) -> LayerModel {
        match *self {
            Layer::Empty(color) => LayerModel { color, pixels: Set::empty() },
            Layer::Filled(area) => area@,
        }
    }
}

impl Layer {
    pub fn into_filled(self) -> (area: Option<PixelArea>)
        ensures
            area == (match self {
                Layer::Filled(a) => Some(a),
                Layer::Empty(_) => None,
            }),
            area is Some <==> self@.pixels != Set::<(int, int)>::empty(),
    {
        match self {
            Layer::Filled(a) => {
                proof {
                    use_type_invariant(&a.pixels);
                    lemma_filled(a.pixels);
                }
                Some(a)
            },
            Layer::Empty(_) => None,
        }
    }

    pub fn as_filled(&self) -> (area: Option<&PixelArea>)
        ensures
            area is Some <==> self@.pixels != Set::<(int, int)>::empty(),
            area matches Some(a) ==> *self == Layer::Filled(*a),
    {
        match self {
            Layer::Empty(_) => None,
            Layer::Filled(a) => {
                proof {
                    use_type_invariant(&a.pixels);
                    lemma_filled(a.pixels);
                }
                Some(a)
            },
        }
    }

    pub fn color(&self) -> (color: [u8; 4])
        ensures
            color == self@.color,
    {
        match self {
            Layer::Empty(c) => *c,
            Layer::Filled(area) => area.color,
        }
    }

    /// Changes the color and keeps the pixels.
    pub fn set_color(&mut self, color: [u8; 4])
        ensures
            final(self)@ == (LayerModel { color, pixels: old(self)@.pixels }),
    {
        match self {
            Layer::Empty(c) => {
                *c = color;
            },
            Layer::Filled(area) => {
                area.color = color;
            },
        }
    }

    /// Fills the layer with the given pixels and keeps the color.
    pub fn set_ranges(&mut self, pixels: SortedRanges)
        ensures
            final(self)@ == (LayerModel { color: old(self)@.color, pixels: pixels@ }),
    {
        let color: [u8; 4] = self.color();
        *self = Layer::Filled(PixelArea { pixels, color });
    }

    /// Empties the layer, keeps its color, and hands out the pixels it had.
    pub fn clear_ranges(&mut self) -> (pixels: Option<SortedRanges>)
        ensures
            final(self)@ == (LayerModel { color: old(self)@.color, pixels: Set::empty() }),
            pixels is Some <==> old(self)@.pixels != Set::<(int, int)>::empty(),
            pixels matches Some(p) ==> p@ == old(self)@.pixels,
    {
        let color: [u8; 4] = self.color();
        let mut old_value = Layer::Empty(color);
        core::mem::swap(self, &mut old_value);
        match old_value.into_filled() {
            Some(area) => Some(area.pixels),
            None => None,
        }
    }

    /// Whether both layers show the same.
    pub fn same(&self, other: &Layer) -> (same: bool)
        ensures
            same == (self@ == other@),
    {
        match (self, other) {
            (Layer::Empty(a), Layer::Empty(b)) => colors_equal(a, b),
            (Layer::Filled(a), Layer::Filled(b)) => a.same(b),
            (Layer::Empty(_), Layer::Filled(b)) => {
                proof {
                    use_type_invariant(&b.pixels);
                    lemma_filled(b.pixels);
                }
                false
            },
            (Layer::Filled(a), Layer::Empty(_)) => {
                proof {
                    use_type_invariant(&a.pixels);
                    lemma_filled(a.pixels);
                }
                false
            },
        }
    }
}

impl Clone for Layer {
    fn clone(&self) -> (copy: Self)
        ensures
            copy@ == self@,
    {
        match self {
            Layer::Empty(color) => Layer::Empty(*color),
            Layer::Filled(area) => Layer::Filled(area.clone()),
        }
    }
}

/// A well-formed region holds at least one pixel.
pub(crate) proof fn lemma_filled(ranges: SortedRanges)
    requires
        ranges.wf(),
    ensures
        ranges@ != Set::<(int, int)>::empty(),
{
    crate::ranges::lemma_empty_runs(ranges.run_list());
}

/// What the layers show, in order.
pub open spec fn layer_models(layers: Seq<Layer>) -> Seq<LayerModel> {
    layers.map_values(|l: Layer| l@)
}

/// The stack with empty layers appended until it has a layer `index`.
pub open spec fn padded(stack: Seq<LayerModel>, index: int) -> Seq<LayerModel> {
    if index < stack.len() {
        stack
    } else {
        Seq::new(
            (index + 1) as nat,
            |i: int|
                if i < stack.len() {
                    stack[i]
                } else {
                    blank_layer(i)
                },
        )
    }
}

/// Appends empty layers until there is a layer `index`, and lends that layer out.
pub fn prepare_layer_space(layers: &mut Vec<Layer>, index: usize) -> (layer: &mut Layer)
    ensures
        layer@ == padded(layer_models(old(layers)@), index as int)[index as int],
        layer_models(final(layers)@) == padded(layer_models(old(layers)@), index as int).update(
            index as int,
            final(layer)@,
        ),
{
    let ghost start = layer_models(layers@);
    while layers.len() <= index
        invariant
            layers@.len() <= index + 1 || layers@.len() == start.len(),
            layers@.len() >= start.len(),
            layer_models(layers@) == Seq::new(
                layers@.len(),
                |i: int|
                    if i < start.len() {
                        start[i]
                    } else {
                        blank_layer(i)
                    },
            ),
        decreases index + 1 - layers@.len(),
    {
        let i: usize = layers.len();
        let ghost prev = layers@;
        layers.push(Layer::Empty(color_at_position(i)));
        assert(layer_models(layers@) =~= layer_models(prev).push(blank_layer(i as int)));
        assert(layer_models(layers@) =~= Seq::new(
            layers@.len(),
            |k: int|
                if k < start.len() {
                    start[k]
                } else {
                    blank_layer(k)
                },
        ));
    }
    assert(layer_models(layers@) =~= padded(start, index as int));
    let ghost full = layers@;
    assert forall|l: Layer| layer_models(full.update(index as int, l)) == layer_models(full).update(index as int, l@) by {
        assert(layer_models(full.update(index as int, l)) =~= layer_models(full).update(index as int, l@));
    }
    &mut layers[index]
}

/// Making room for a layer keeps the layers that are there, makes no more layers than are needed,
/// and leaves the new ones empty, each in the color of its position.
pub proof fn making_room_keeps_layers(stack: Seq<LayerModel>, index: int, i: int)
    requires
        0 <= index,
    ensures
        index < padded(stack, index).len(),
        padded(stack, index).len() == stack.len() || padded(stack, index).len() == index + 1,
        stack.len() <= padded(stack, index).len(),
        0 <= i < stack.len() ==> padded(stack, index)[i] == stack[i],
        stack.len() <= i <= index ==> padded(stack, index)[i].pixels == Set::<(int, int)>::empty()
            && padded(stack, index)[i].color == position_color(i),
{
}

/// A layer shows what it holds: no pixel where it is empty, else those of its area, in its color.
pub proof fn layers_show_what_they_hold(area: PixelArea, color: [u8; 4])
    ensures
        Layer::Empty(color)@.pixels == Set::<(int, int)>::empty(),
        Layer::Empty(color)@.color == color,
        Layer::Filled(area)@.pixels == area.pixels@,
        Layer::Filled(area)@.color == area.color,
        area@.pixels == area.pixels@,
        area@.color == area.color,
{
}

} // verus!
