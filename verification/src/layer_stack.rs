//! The stack of layers of a mask.
use crate::affected_layer::AffectedLayer;
use crate::pixel_area::{
    blank_layer, layer_models, padded, prepare_layer_space, Layer, LayerModel,
    PixelArea,
};
use vstd::prelude::*;
use vstd::std_specs::cmp::PartialEqSpec;

verus! {

/// Whether the layer holds a pixel.
pub open spec fn is_filled(layer: LayerModel) -> bool {
    layer.pixels != Set::<(int, int)>::empty()
}

/// The filled layers among `from..to` that `affected` selects, bottom first, each with its index.
pub open spec fn filled_between(
    stack: Seq<LayerModel>,
    affected: AffectedLayer,
    from: int,
    to: int,
) -> Seq<(int, LayerModel)>
    decreases to - from,
{
    if from >= to {
        Seq::empty()
    } else {
        let lower = filled_between(stack, affected, from, to - 1);
        if affected.affects_layer(to - 1) && is_filled(stack[to - 1]) {
            lower.push((to - 1, stack[to - 1]))
        } else {
            lower
        }
    }
}

/// All filled layers that `affected` selects, bottom first, each with its index.
pub open spec fn filled_layers(stack: Seq<LayerModel>, affected: AffectedLayer) -> Seq<
    (int, LayerModel),
> {
    filled_between(stack, affected, 0, stack.len() as int)
}

/// What a numbered area shows.
pub open spec fn entry_model(entry: (usize, &PixelArea)) -> (int, LayerModel) {
    (entry.0 as int, entry.1@)
}

/// What the numbered areas show, in order.
pub open spec fn entry_models(entries: Seq<(usize, &PixelArea)>) -> Seq<(int, LayerModel)> {
    entries.map_values(|e: (usize, &PixelArea)| entry_model(e))
}

/// The selection of layers, counted off from the bottom.
proof fn lemma_filled_from(stack: Seq<LayerModel>, affected: AffectedLayer, from: int, to: int)
    requires
        from < to,
    ensures
        filled_between(stack, affected, from, to) == if affected.affects_layer(from) && is_filled(
            stack[from],
        ) {
            seq![(from, stack[from])] + filled_between(stack, affected, from + 1, to)
        } else {
            filled_between(stack, affected, from + 1, to)
        },
    decreases to - from,
{
    if from + 1 < to {
        lemma_filled_from(stack, affected, from, to - 1);
        let whole = filled_between(stack, affected, from, to);
        let upper = filled_between(stack, affected, from + 1, to);
        if affected.affects_layer(from) && is_filled(stack[from]) {
            assert(whole =~= seq![(from, stack[from])] + upper);
        }
    } else {
        assert(filled_between(stack, affected, from + 1, to) =~= Seq::empty());
        assert(filled_between(stack, affected, from, to - 1) =~= Seq::empty());
        assert(Seq::<(int, LayerModel)>::empty().push((from, stack[from])) =~= seq![
            (from, stack[from]),
        ] + Seq::<(int, LayerModel)>::empty());
    }
}

/// An entry of the selection is a filled layer that was asked for, and each such layer is an
/// entry; entries come in the order of their layers.
pub proof fn filled_entries(stack: Seq<LayerModel>, affected: AffectedLayer, from: int, to: int)
    requires
        0 <= from <= to <= stack.len(),
    ensures
        forall|k: int|
            #![trigger filled_between(stack, affected, from, to)[k]]
            0 <= k < filled_between(stack, affected, from, to).len() ==> {
                let (i, layer) = filled_between(stack, affected, from, to)[k];
                from <= i < to && affected.affects_layer(i) && is_filled(stack[i]) && layer
                    == stack[i]
            },
        forall|i: int|
            #![trigger stack[i]]
            from <= i < to && affected.affects_layer(i) && is_filled(stack[i])
                ==> filled_between(stack, affected, from, to).contains((i, stack[i])),
        forall|j: int, k: int|
            0 <= j < k < filled_between(stack, affected, from, to).len() ==> filled_between(
                stack,
                affected,
                from,
                to,
            )[j].0 < filled_between(stack, affected, from, to)[k].0,
    decreases to - from,
{
    if from < to {
        filled_entries(stack, affected, from, to - 1);
        let lower = filled_between(stack, affected, from, to - 1);
        let whole = filled_between(stack, affected, from, to);
        if affected.affects_layer(to - 1) && is_filled(stack[to - 1]) {
            assert(whole == lower.push((to - 1, stack[to - 1])));
            assert(whole[whole.len() - 1] == (to - 1, stack[to - 1]));
            assert forall|i: int| #![trigger stack[i]]
                from <= i < to && affected.affects_layer(i) && is_filled(
                    stack[i],
                ) implies whole.contains((i, stack[i])) by {
                if i < to - 1 {
                    let k = lower.index_of((i, stack[i]));
                    assert(whole[k] == (i, stack[i]));
                }
            }
        }
    }
}

/// Layers of a mask, bottom first.
pub struct PixelAreaStack {
    areas: Vec<Layer>,
}

impl View for PixelAreaStack {
    type V = Seq<LayerModel>;

    closed spec fn view(&self) -> Seq<LayerModel> {
        layer_models(self.areas@)
    }
}

impl Default for PixelAreaStack {
    fn default() -> (stack: Self)
        ensures
            stack@ == Seq::<LayerModel>::empty(),
    {
        let stack = PixelAreaStack { areas: Vec::new() };
        assert(stack@ =~= Seq::empty());
        stack
    }
}

impl Clone for PixelAreaStack {
    fn clone(&self) -> (copy: Self)
        ensures
            copy@ == self@,
    {
        PixelAreaStack { areas: clone_layers(&self.areas) }
    }
}

impl PartialEq for PixelAreaStack {
    fn eq(&self, other: &Self) -> (same: bool) {
        self.same(other)
    }
}

impl vstd::std_specs::cmp::PartialEqSpecImpl for PixelAreaStack {
    open spec fn obeys_eq_spec() -> bool {
        true
    }

    open spec fn eq_spec(&self, other: &Self) -> bool {
        self@ == other@
    }
}

impl Eq for PixelAreaStack {

}

fn clone_layers(layers: &Vec<Layer>) -> (copy: Vec<Layer>)
    ensures
        layer_models(copy@) == layer_models(layers@),
{
    let mut copy: Vec<Layer> = Vec::new();
    let mut i: usize = 0;
    while i < layers.len()
        invariant
            i <= layers@.len(),
            layer_models(copy@) == layer_models(layers@).take(i as int),
        decreases layers@.len() - i,
    {
        let ghost prev = copy@;
        let layer = layers[i].clone();
        copy.push(layer);
        assert(layer_models(copy@) =~= layer_models(prev).push(layer@));
        assert(layer_models(layers@).take(i + 1) =~= layer_models(layers@).take(i as int).push(
            layers@[i as int]@,
        ));
        i += 1;
    }
    assert(layer_models(layers@).take(i as int) =~= layer_models(layers@));
    copy
}

/// What the areas show when each fills the layer of its position.
pub open spec fn area_models(areas: Seq<PixelArea>) -> Seq<LayerModel> {
    areas.map_values(|a: PixelArea| a@)
}

impl From<Vec<PixelArea>> for PixelAreaStack {
    fn from(areas: Vec<PixelArea>) -> (stack: Self)
        ensures
            stack@ == area_models(areas@),
    {
        let ghost all = areas@;
        let mut rest = areas;
        let mut reversed: Vec<Layer> = Vec::new();
        while rest.len() > 0
            invariant
                rest@.len() + reversed@.len() == all.len(),
                rest@ == all.take(rest@.len() as int),
                forall|k: int|
                    0 <= k < reversed@.len() ==> (#[trigger] reversed@[k])@ == all[all.len() - 1
                        - k]@,
            decreases rest@.len(),
        {
            let ghost n = rest@.len();
            match rest.pop() {
                Some(area) => {
                    assert(area == all[n - 1]);
                    reversed.push(Layer::Filled(area));
                },
                None => {},
            }
            assert(rest@ =~= all.take(n - 1));
        }
        let mut layers: Vec<Layer> = Vec::new();
        while reversed.len() > 0
            invariant
                layers@.len() + reversed@.len() == all.len(),
                forall|k: int|
                    0 <= k < reversed@.len() ==> (#[trigger] reversed@[k])@ == all[all.len() - 1
                        - k]@,
                forall|k: int| 0 <= k < layers@.len() ==> (#[trigger] layers@[k])@ == all[k]@,
            decreases reversed@.len(),
        {
            let ghost n = reversed@.len();
            let ghost was = reversed@;
            match reversed.pop() {
                Some(layer) => {
                    assert(layer == was[n - 1]);
                    layers.push(layer);
                },
                None => {},
            }
        }
        let stack = PixelAreaStack { areas: layers };
        assert(stack@ =~= area_models(all));
        stack
    }
}

impl vstd::std_specs::convert::FromSpecImpl<Vec<PixelArea>> for PixelAreaStack {
    open spec fn obeys_from_spec() -> bool {
        false
    }

    open spec fn from_spec(areas: Vec<PixelArea>) -> Self {
        arbitrary()
    }
}

/// The stack that holds the numbered areas in the layers of their numbers, where of two areas with
/// one number the later stays, and empty layers below.
pub open spec fn placed(areas: Seq<(usize, PixelArea)>) -> Seq<LayerModel>
    decreases areas.len(),
{
    if areas.len() == 0 {
        Seq::empty()
    } else {
        let (index, area) = areas.last();
        padded(placed(areas.drop_last()), index as int).update(index as int, area@)
    }
}

/// Areas with different numbers may come in any order: two that follow each other can be swapped.
pub proof fn placing_order_is_free(
    areas: Seq<(usize, PixelArea)>,
    a: (usize, PixelArea),
    b: (usize, PixelArea),
)
    requires
        a.0 != b.0,
    ensures
        placed(areas.push(a).push(b)) == placed(areas.push(b).push(a)),
{
    let start = placed(areas);
    assert(areas.push(a).drop_last() =~= areas);
    assert(areas.push(b).drop_last() =~= areas);
    assert(areas.push(a).push(b).drop_last() =~= areas.push(a));
    assert(areas.push(b).push(a).drop_last() =~= areas.push(b));
    let (i, j) = (a.0 as int, b.0 as int);
    assert(placed(areas.push(a)) == padded(start, i).update(i, a.1@));
    assert(placed(areas.push(b)) == padded(start, j).update(j, b.1@));
    let one = padded(padded(start, i).update(i, a.1@), j).update(j, b.1@);
    let other = padded(padded(start, j).update(j, b.1@), i).update(i, a.1@);
    assert(placed(areas.push(a).push(b)) == one);
    assert(placed(areas.push(b).push(a)) == other);
    assert(one =~= other);
}

impl PixelAreaStack {
    /// The area of layer `i`, where that layer is there and filled.
    pub fn get(&self, i: usize) -> (area: Option<&PixelArea>)
        ensures
            area is Some <==> i < self@.len() && is_filled(self@[i as int]),
            area matches Some(a) ==> a@ == self@[i as int],
    {
        if i < self.areas.len() {
            self.areas[i].as_filled()
        } else {
            None
        }
    }

    /// The stack with the given areas in the layers of their numbers, in any order.
    pub fn from_iter(areas: Vec<(usize, PixelArea)>) -> (stack: Self)
        ensures
            stack@ == placed(areas@),
    {
        let mut all: Vec<Layer> = Vec::new();
        let mut k: usize = 0;
        assert(layer_models(all@) =~= placed(areas@.take(0)));
        while k < areas.len()
            invariant
                k <= areas@.len(),
                layer_models(all@) == placed(areas@.take(k as int)),
            decreases areas@.len() - k,
        {
            let index: usize = areas[k].0;
            let area = areas[k].1.clone();
            let layer = prepare_layer_space(&mut all, index);
            *layer = Layer::Filled(area);
            proof {
                let next = areas@.take(k + 1);
                assert(next.drop_last() =~= areas@.take(k as int));
                assert(next.last() == areas@[k as int]);
            }
            k += 1;
        }
        assert(areas@.take(k as int) =~= areas@);
        PixelAreaStack { areas: all }
    }

    /// How many layers there are, empty ones counted.
    pub fn max_layer(&self) -> (n: usize)
        ensures
            n == self@.len(),
    {
        self.areas.len()
    }

    /// Whether no layer holds a pixel.
    pub fn is_empty(&self) -> (empty: bool)
        ensures
            empty == (forall|i: int| 0 <= i < self@.len() ==> !is_filled(#[trigger] self@[i])),
    {
        let mut i: usize = 0;
        while i < self.areas.len()
            invariant
                i <= self.areas@.len(),
                forall|k: int| 0 <= k < i ==> !is_filled(#[trigger] self@[k]),
            decreases self.areas@.len() - i,
        {
            if self.areas[i].as_filled().is_some() {
                assert(is_filled(self@[i as int]));
                return false;
            }
            i += 1;
        }
        true
    }

    /// The filled layers, bottom first.
    pub fn iter(&self) -> (iter: PixelAreaStackIter<'_>)
        ensures
            iter@ == filled_layers(self@, AffectedLayer::Unspecified),
            iter.wf(),
    {
        self.iter_filtered(AffectedLayer::Unspecified)
    }

    /// The filled layers that `affected` selects, bottom first.
    pub fn iter_filtered(&self, affected: AffectedLayer) -> (iter: PixelAreaStackIter<'_>)
        ensures
            iter@ == filled_layers(self@, affected),
            iter.wf(),
    {
        PixelAreaStackIter { index: 0, end_index: self.areas.len(), affected, inner: &self.areas }
    }

    /// Sets the color of a layer, which is made where it is not there yet.
    pub fn set_layer_color(&mut self, index: usize, color: [u8; 4])
        ensures
            final(self)@ == padded(old(self)@, index as int).update(
                index as int,
                (LayerModel { color, pixels: padded(old(self)@, index as int)[index as int].pixels }),
            ),
    {
        let layer = prepare_layer_space(&mut self.areas, index);
        layer.set_color(color);
    }

    /// The color of a layer; `None` where there is no such layer.
    pub fn layer_color(&self, index: usize) -> (color: Option<[u8; 4]>)
        ensures
            color == if index < self@.len() {
                Some(self@[index as int].color)
            } else {
                None
            },
    {
        if index < self.areas.len() {
            Some(self.areas[index].color())
        } else {
            None
        }
    }

    /// Puts an area into a layer, or empties the layer and gives it the color of its position.
    /// Hands out the area that was there.
    pub fn set_layer(&mut self, index: usize, area: Option<PixelArea>) -> (before: Option<PixelArea>)
        ensures
            final(self)@ == padded(old(self)@, index as int).update(
                index as int,
                match area {
                    Some(new) => new@,
                    None => blank_layer(index as int),
                },
            ),
            before is Some <==> index < old(self)@.len() && is_filled(old(self)@[index as int]),
            before matches Some(b) ==> b@ == old(self)@[index as int],
    {
        let layer = prepare_layer_space(&mut self.areas, index);
        let mut value = match area {
            Some(new) => Layer::Filled(new),
            None => Layer::Empty(crate::color::color_at_position(index)),
        };
        core::mem::swap(layer, &mut value);
        value.into_filled()
    }

    pub fn to_layer_vec(&self) -> (layers: Vec<Layer>)
        ensures
            layer_models(layers@) == self@,
    {
        clone_layers(&self.areas)
    }

    pub fn from_layer_vec(layers: Vec<Layer>) -> (stack: Self)
        ensures
            stack@ == layer_models(layers@),
    {
        PixelAreaStack { areas: layers }
    }

    /// The filled layers with their numbers, bottom first.
    pub fn into_iter(self) -> (entries: Vec<(usize, PixelArea)>)
        ensures
            entries@.map_values(|e: (usize, PixelArea)| (e.0 as int, e.1@)) == filled_layers(
                self@,
                AffectedLayer::Unspecified,
            ),
    {
        let mut entries: Vec<(usize, PixelArea)> = Vec::new();
        let mut i: usize = 0;
        let ghost model = |e: (usize, PixelArea)| (e.0 as int, e.1@);
        assert(entries@.map_values(model) =~= filled_between(
            self@,
            AffectedLayer::Unspecified,
            0,
            0,
        ));
        while i < self.areas.len()
            invariant
                i <= self.areas@.len(),
                model == (|e: (usize, PixelArea)| (e.0 as int, e.1@)),
                entries@.map_values(model) == filled_between(
                    self@,
                    AffectedLayer::Unspecified,
                    0,
                    i as int,
                ),
            decreases self.areas@.len() - i,
        {
            if let Some(area) = self.areas[i].as_filled() {
                let ghost was = entries@;
                let entry = (i, area.clone());
                entries.push(entry);
                assert(entries@.map_values(model) =~= was.map_values(model).push(
                    (i as int, self@[i as int]),
                ));
            }
            i += 1;
        }
        entries
    }

    /// Whether both stacks show the same.
    pub fn same(&self, other: &PixelAreaStack) -> (same: bool)
        ensures
            same == (self@ == other@),
    {
        if self.areas.len() != other.areas.len() {
            assert(self@.len() != other@.len());
            return false;
        }
        let mut i: usize = 0;
        while i < self.areas.len()
            invariant
                i <= self.areas@.len(),
                self.areas@.len() == other.areas@.len(),
                forall|k: int| 0 <= k < i ==> #[trigger] self@[k] == other@[k],
            decreases self.areas@.len() - i,
        {
            if !self.areas[i].same(&other.areas[i]) {
                assert(self@[i as int] != other@[i as int]);
                return false;
            }
            assert(self@[i as int] == other@[i as int]);
            i += 1;
        }
        assert(self@ =~= other@);
        true
    }
}

/// Walks over the filled layers of a stack, from both ends.
pub struct PixelAreaStackIter<'a> {
    index: usize,
    end_index: usize,
    affected: AffectedLayer,
    inner: &'a Vec<Layer>,
}

impl<'a> View for PixelAreaStackIter<'a> {
    type V = Seq<(int, LayerModel)>;

    /// The entries that are left.
    closed spec fn view(&self) -> Seq<(int, LayerModel)> {
        filled_between(
            layer_models(self.inner@),
            self.affected,
            self.index as int,
            self.end_index as int,
        )
    }
}

impl<'a> PixelAreaStackIter<'a> {
    pub closed spec fn wf(&self) -> bool {
        self.end_index <= self.inner@.len()
    }

    /// The lowest entry that is left.
    pub fn next(&mut self) -> (entry: Option<(usize, &'a PixelArea)>)
        requires
            old(self).wf(),
        ensures
            final(self).wf(),
            entry is Some <==> old(self)@.len() > 0,
            entry matches Some(e) ==> entry_model(e) == old(self)@[0] && final(self)@
                == old(self)@.drop_first(),
            entry is None ==> final(self)@ == old(self)@,
    {
        let ghost stack = layer_models(self.inner@);
        while self.index < self.end_index
            invariant
                self.inner == old(self).inner,
                self.affected == old(self).affected,
                self.end_index == old(self).end_index,
                self.end_index <= self.inner@.len(),
                stack == layer_models(self.inner@),
                self@ == old(self)@,
            decreases self.end_index - self.index,
        {
            let current: usize = self.index;
            proof {
                lemma_filled_from(stack, self.affected, current as int, self.end_index as int);
            }
            self.index = current + 1;
            if self.affected.affects(current) {
                if let Some(area) = self.inner[current].as_filled() {
                    assert(self@ =~= old(self)@.drop_first());
                    return Some((current, area));
                }
            }
        }
        None
    }

    /// The highest entry that is left.
    pub fn next_back(&mut self) -> (entry: Option<(usize, &'a PixelArea)>)
        requires
            old(self).wf(),
        ensures
            final(self).wf(),
            entry is Some <==> old(self)@.len() > 0,
            entry matches Some(e) ==> entry_model(e) == old(self)@.last() && final(self)@
                == old(self)@.drop_last(),
            entry is None ==> final(self)@ == old(self)@,
    {
        let ghost stack = layer_models(self.inner@);
        while self.index < self.end_index
            invariant
                self.inner == old(self).inner,
                self.affected == old(self).affected,
                self.end_index <= self.inner@.len(),
                stack == layer_models(self.inner@),
                self@ == old(self)@,
            decreases self.end_index - self.index,
        {
            self.end_index = self.end_index - 1;
            if self.affected.affects(self.end_index) {
                if let Some(area) = self.inner[self.end_index].as_filled() {
                    assert(self@ =~= old(self)@.drop_last());
                    return Some((self.end_index, area));
                }
            }
        }
        None
    }

    /// All entries that are left.
    pub fn collect(self) -> (entries: Vec<(usize, &'a PixelArea)>)
        requires
            self.wf(),
        ensures
            entry_models(entries@) == self@,
    {
        let mut rest = self;
        let mut entries: Vec<(usize, &'a PixelArea)> = Vec::new();
        assert(entry_models(entries@) + rest@ =~= self@);
        loop
            invariant
                rest.wf(),
                entry_models(entries@) + rest@ == self@,
            decreases rest@.len(),
        {
            let ghost was = rest@;
            let ghost had = entries@;
            match rest.next() {
                Some(entry) => {
                    entries.push(entry);
                    assert(entry_models(entries@) =~= entry_models(had).push(was[0]));
                    assert(entry_models(entries@) + rest@ =~= entry_models(had) + was);
                },
                None => {
                    assert(entry_models(entries@) + rest@ =~= entry_models(entries@));
                    return entries;
                },
            }
        }
    }
}

/// A stack of numbered areas ends with the highest number. Each layer shows the last area of its
/// number, and a layer that no area has for its number is empty and in the color of its position.
pub proof fn areas_are_in_their_layers(areas: Seq<(usize, PixelArea)>, k: int, i: int)
    ensures
        0 <= k < areas.len() ==> areas[k].0 < placed(areas).len(),
        placed(areas).len() > 0 ==> exists|j: int|
            0 <= j < areas.len() && (#[trigger] areas[j]).0 == placed(areas).len() - 1,
        0 <= k < areas.len() && (forall|j: int|
            k < j < areas.len() ==> (#[trigger] areas[j]).0 != areas[k].0)
            ==> placed(areas)[areas[k].0 as int] == areas[k].1@,
        0 <= i < placed(areas).len() && (forall|j: int|
            0 <= j < areas.len() ==> (#[trigger] areas[j]).0 != i) ==> placed(areas)[i].pixels
            == Set::<(int, int)>::empty() && placed(areas)[i].color
            == crate::color::position_color(i),
    decreases areas.len(),
{
    if areas.len() > 0 {
        let rest = areas.drop_last();
        let last = areas.len() - 1;
        let index = areas[last].0 as int;
        areas_are_in_their_layers(rest, k, i);
        assert(areas[last].0 == index);
        let below = placed(rest);
        if below.len() > index {
            let j = choose|j: int|
                0 <= j < rest.len() && (#[trigger] rest[j]).0 == below.len() - 1;
            assert(areas[j].0 == below.len() - 1);
        }
        if 0 <= i < placed(areas).len() && (forall|j: int|
            0 <= j < areas.len() ==> (#[trigger] areas[j]).0 != i) {
            assert forall|j: int| 0 <= j < rest.len() implies (#[trigger] rest[j]).0 != i by {
                assert(areas[j] == rest[j]);
            }
        }
        if 0 <= k < last && (forall|j: int|
            k < j < areas.len() ==> (#[trigger] areas[j]).0 != areas[k].0) {
            assert forall|j: int| k < j < rest.len() implies (#[trigger] rest[j]).0 != rest[k].0 by {
                assert(areas[j] == rest[j]);
            }
            assert(areas[last].0 != areas[k].0);
        }
    }
}

/// The filled layers of a stack are the layers that hold a pixel and are asked for, each with its
/// number, bottom first, and none twice.
pub proof fn filled_layers_are_listed(
    stack: Seq<LayerModel>,
    affected: AffectedLayer,
    i: int,
    j: int,
    k: int,
)
    ensures
        ({
            let listed = filled_layers(stack, affected);
            &&& 0 <= i < stack.len() && affected.affects_layer(i) && stack[i].pixels != Set::<
                (int, int),
            >::empty() ==> listed.contains((i, stack[i]))
            &&& 0 <= k < listed.len() ==> {
                &&& 0 <= listed[k].0 < stack.len()
                &&& affected.affects_layer(listed[k].0)
                &&& listed[k].1 == stack[listed[k].0]
                &&& listed[k].1.pixels != Set::<(int, int)>::empty()
            }
            &&& 0 <= j < k < listed.len() ==> listed[j].0 < listed[k].0
        }),
{
    filled_entries(stack, affected, 0, stack.len() as int);
}

/// Stacks are equal where they have the same number of layers, and each layer has the same pixels and
/// the same color in both.
pub proof fn equal_stacks_show_the_same(a: PixelAreaStack, b: PixelAreaStack)
    ensures
        PixelAreaStack::obeys_eq_spec(),
        a.eq_spec(&b) <==> a@.len() == b@.len() && forall|i: int|
            0 <= i < a@.len() ==> (#[trigger] a@[i]).pixels == b@[i].pixels && a@[i].color
                == b@[i].color,
{
    if a@.len() == b@.len() && forall|i: int|
        0 <= i < a@.len() ==> (#[trigger] a@[i]).pixels == b@[i].pixels && a@[i].color
            == b@[i].color {
        assert(a@ =~= b@);
    }
}

} // verus!
