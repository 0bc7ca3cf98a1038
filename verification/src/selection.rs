//! A selection of mask pixels that can be moved, resized and rotated as one.
use crate::history::{ActionModel, HistoryAction, HistoryModel};
use crate::pixel_area::lemma_filled;
use crate::ranges::{hugging_roi_of_union, Roi, SortedRanges};
use vstd::prelude::*;

verus! {

/// The pixels of a region, none where there is no region.
pub open spec fn pixels_of(region: Option<SortedRanges>) -> Set<(int, int)> {
    match region {
        Some(r) => r@,
        None => Set::empty(),
    }
}

/// What is selected of one layer.
#[verifier::ext_equal]
pub struct PartModel {
    /// The selected pixels as they were selected. Every transform starts from these.
    pub original: Set<(int, int)>,
    /// The selected pixels as they are in the mask; none while the part is out of the image.
    pub committed: Set<(int, int)>,
    /// The pixels of the layer that are not selected.
    pub background: Set<(int, int)>,
}

impl PartModel {
    /// The pixels in the mask become those that the next transform starts from.
    pub open spec fn rebased(self) -> PartModel {
        PartModel { original: self.committed, ..self }
    }

    /// More pixels of the layer are selected.
    pub open spec fn merged(self, ranges: Set<(int, int)>) -> PartModel {
        PartModel {
            original: self.original.union(ranges),
            committed: self.committed.union(ranges),
            background: self.background.difference(ranges),
        }
    }

    /// The pixels that are not selected, but hidden under selected ones.
    pub open spec fn covered_background(self) -> Set<(int, int)> {
        self.background.intersect(self.committed)
    }

    /// The part after its selected pixels were placed elsewhere; nowhere, where they left the
    /// image.
    pub open spec fn placed(self, new: Set<(int, int)>) -> PartModel {
        PartModel { committed: new, ..self }
    }
}

/// A part that was just selected.
pub open spec fn fresh_part(ranges: Set<(int, int)>, background: Set<(int, int)>) -> PartModel {
    PartModel { original: ranges, committed: ranges, background }
}

/// What is selected of one layer: the pristine `original` ranges (snapshotted at selection time)
/// plus the `committed` ranges (what the last commit wrote to history, `None` if currently moved
/// fully out of the image). Every preview and every commit is computed from `original`, so chained
/// gestures never accumulate rasterization loss; it is `None` once nothing was placed at a rebase.
/// `background` holds the non-selected pixels: every commit re-adds the background under the
/// cleared footprint, so that pixels outside the selection always remain.
pub struct LayerSelection {
    pub original: Option<SortedRanges>,
    pub committed: Option<SortedRanges>,
    pub background: Option<SortedRanges>,
}

impl View for LayerSelection {
    type V = PartModel;

    open spec fn view(&self) -> PartModel {
        PartModel {
            original: pixels_of(self.original),
            committed: pixels_of(self.committed),
            background: pixels_of(self.background),
        }
    }
}

impl LayerSelection {
    /// Fresh snapshot: nothing transformed yet, so placed pixels equal the pristine original.
    pub fn fresh(ranges: SortedRanges, background: Option<SortedRanges>) -> (part: LayerSelection)
        ensures
            part@ == fresh_part(ranges@, pixels_of(background)),
    {
        LayerSelection { original: Some(ranges.clone()), committed: Some(ranges), background }
    }

    /// Bakes the placed pixels into the snapshot.
    pub fn rebase(&mut self)
        ensures
            final(self)@ == old(self)@.rebased(),
    {
        self.original = clone_region(&self.committed);
    }

    /// Selects more pixels of the layer.
    pub fn update(&mut self, ranges: &SortedRanges)
        ensures
            final(self)@ == old(self)@.merged(ranges@),
    {
        let background: Option<SortedRanges> = match &self.background {
            Some(bg) => bg.subtract(ranges),
            None => None,
        };
        proof {
            let before = pixels_of(self.background);
            if self.background is None {
                assert(before.difference(ranges@) =~= Set::empty());
            }
            assert(pixels_of(background) == before.difference(ranges@));
        }
        self.background = background;
        self.original = Some(extended(&self.original, ranges));
        self.committed = Some(extended(&self.committed, ranges));
    }

    /// Background pixels under the committed footprint; `None` when nothing overlaps.
    pub fn restore(&self) -> (covered: Option<SortedRanges>)
        ensures
            covered is Some <==> self@.covered_background() != Set::<(int, int)>::empty(),
            pixels_of(covered) == self@.covered_background(),
    {
        match (&self.background, &self.committed) {
            (Some(bg), Some(committed)) => bg.intersect(committed),
            _ => {
                assert(self@.covered_background() =~= Set::empty());
                None
            },
        }
    }
}

fn clone_region(region: &Option<SortedRanges>) -> (copy: Option<SortedRanges>)
    ensures
        copy is Some == region is Some,
        pixels_of(copy) == pixels_of(*region),
{
    match region {
        Some(r) => Some(r.clone()),
        None => None,
    }
}

/// The region with more pixels.
fn extended(region: &Option<SortedRanges>, more: &SortedRanges) -> (all: SortedRanges)
    ensures
        all@ == pixels_of(*region).union(more@),
{
    match region {
        Some(r) => r.union(more),
        None => {
            assert(Set::<(int, int)>::empty().union(more@) =~= more@);
            more.clone()
        },
    }
}

/// What the parts of a selection are, in the order of their layers.
pub open spec fn part_models(parts: Seq<(usize, LayerSelection)>) -> Seq<(int, PartModel)> {
    parts.map_values(|p: (usize, LayerSelection)| (p.0 as int, p.1@))
}

/// Whether the parts come in the order of their layers, one for each.
pub open spec fn layers_increase(parts: Seq<(int, PartModel)>) -> bool {
    forall|j: int, k: int| 0 <= j < k < parts.len() ==> parts[j].0 < parts[k].0
}

/// Whether there is a part for the layer.
pub open spec fn has_layer(parts: Seq<(int, PartModel)>, layer: int) -> bool {
    exists|k: int| 0 <= k < parts.len() && (#[trigger] parts[k]).0 == layer
}

/// The part for the layer.
pub open spec fn part_of(parts: Seq<(int, PartModel)>, layer: int) -> Option<PartModel> {
    if has_layer(parts, layer) {
        Some(
            parts[choose|k: int| 0 <= k < parts.len() && (#[trigger] parts[k]).0 == layer].1,
        )
    } else {
        None
    }
}

/// The part of a layer is the one that stands in the list under it.
pub(crate) proof fn lemma_part_at(parts: Seq<(int, PartModel)>, k: int)
    requires
        layers_increase(parts),
        0 <= k < parts.len(),
    ensures
        part_of(parts, parts[k].0) == Some(parts[k].1),
{
    let layer = parts[k].0;
    assert(has_layer(parts, layer));
    let j = choose|j: int| 0 <= j < parts.len() && (#[trigger] parts[j]).0 == layer;
    if j < k {
        assert(parts[j].0 < parts[k].0);
    } else if k < j {
        assert(parts[k].0 < parts[j].0);
    }
}

/// The parts of a selection are determined by what they are for each layer.
pub proof fn parts_are_unique(a: Seq<(int, PartModel)>, b: Seq<(int, PartModel)>)
    requires
        layers_increase(a),
        layers_increase(b),
        forall|layer: int| #[trigger] part_of(a, layer) == part_of(b, layer),
    ensures
        a == b,
    decreases a.len(),
{
    if a.len() == 0 {
        if b.len() > 0 {
            lemma_part_at(b, 0);
            assert(part_of(a, b[0].0) is None);
        }
        assert(a =~= b);
    } else {
        lemma_part_at(a, a.len() - 1);
        assert(part_of(b, a.last().0) is Some);
        let k = choose|k: int| 0 <= k < b.len() && (#[trigger] b[k]).0 == a.last().0;
        lemma_part_at(b, b.len() - 1);
        assert(part_of(a, b.last().0) is Some);
        let j = choose|j: int| 0 <= j < a.len() && (#[trigger] a[j]).0 == b.last().0;
        assert(a[j].0 <= a.last().0);
        assert(b[k].0 <= b.last().0);
        assert(a.last().0 == b.last().0);
        let (x, y) = (a.drop_last(), b.drop_last());
        assert forall|layer: int| #[trigger] part_of(x, layer) == part_of(y, layer) by {
            lemma_part_of_rest(a, layer);
            lemma_part_of_rest(b, layer);
            assert(part_of(a, layer) == part_of(b, layer));
        }
        parts_are_unique(x, y);
        assert(a =~= x.push(a.last()));
        assert(b =~= y.push(b.last()));
    }
}

proof fn lemma_part_of_rest(parts: Seq<(int, PartModel)>, layer: int)
    requires
        layers_increase(parts),
        parts.len() > 0,
    ensures
        layers_increase(parts.drop_last()),
        part_of(parts.drop_last(), layer) == if layer == parts.last().0 {
            None
        } else {
            part_of(parts, layer)
        },
{
    let rest = parts.drop_last();
    assert forall|j: int, k: int| 0 <= j < k < rest.len() implies rest[j].0 < rest[k].0 by {
        assert(parts[j].0 < parts[k].0);
    }
    if has_layer(rest, layer) {
        let k = choose|k: int| 0 <= k < rest.len() && (#[trigger] rest[k]).0 == layer;
        lemma_part_at(rest, k);
        assert(parts[k] == rest[k]);
        lemma_part_at(parts, k);
        assert(parts[k].0 < parts[parts.len() - 1].0);
    } else if has_layer(parts, layer) && layer != parts.last().0 {
        let k = choose|k: int| 0 <= k < parts.len() && (#[trigger] parts[k]).0 == layer;
        assert(rest[k] == parts[k]);
    }
}

/// Whether `after` is `before` with the part of one layer set.
pub open spec fn with_part(
    before: Seq<(int, PartModel)>,
    layer: int,
    part: PartModel,
    after: Seq<(int, PartModel)>,
) -> bool {
    &&& layers_increase(after)
    &&& forall|other: int| #[trigger]
        part_of(after, other) == if other == layer {
            Some(part)
        } else {
            part_of(before, other)
        }
}

/// What a selection holds.
#[verifier::ext_equal]
pub struct SelectionModel {
    pub parts: Seq<(int, PartModel)>,
    /// The last action in history that the selection knows of.
    pub tip: Option<ActionModel>,
}

/// Snapshot content of a selection, and the last history action that it has seen.
pub struct ActiveSelectionLogic {
    layers: Vec<(usize, LayerSelection)>,
    tip: Option<HistoryAction>,
}

/// What an action does, where there is one.
pub open spec fn tip_model(tip: Option<HistoryAction>) -> Option<ActionModel> {
    match tip {
        Some(a) => Some(a@),
        None => None,
    }
}

impl View for ActiveSelectionLogic {
    type V = SelectionModel;

    closed spec fn view(&self) -> SelectionModel {
        SelectionModel { parts: part_models(self.layers@), tip: tip_model(self.tip) }
    }
}

/// The last action that is applied.
pub open spec fn last_applied(history: HistoryModel) -> Option<ActionModel> {
    if history.applied().len() > 0 {
        Some(history.applied().last())
    } else {
        None
    }
}

/// A newly selected part of a layer: the layer, its selected pixels, and the others.
pub open spec fn selected_model(part: (usize, SortedRanges, Option<SortedRanges>)) -> (
    int,
    Set<(int, int)>,
    Set<(int, int)>,
) {
    (part.0 as int, part.1@, pixels_of(part.2))
}

pub open spec fn selected_models(parts: Seq<(usize, SortedRanges, Option<SortedRanges>)>) -> Seq<
    (int, Set<(int, int)>, Set<(int, int)>),
> {
    parts.map_values(|p: (usize, SortedRanges, Option<SortedRanges>)| selected_model(p))
}

/// The part of a layer after the first `n` newly selected parts were merged into it.
pub open spec fn merged_part(
    before: Option<PartModel>,
    parts: Seq<(int, Set<(int, int)>, Set<(int, int)>)>,
    n: int,
    layer: int,
) -> Option<PartModel>
    decreases n,
{
    if n <= 0 {
        before
    } else {
        let earlier = merged_part(before, parts, n - 1, layer);
        let (at, ranges, background) = parts[n - 1];
        if at != layer {
            earlier
        } else {
            match earlier {
                Some(part) => Some(part.merged(ranges)),
                None => Some(fresh_part(ranges, background)),
            }
        }
    }
}

impl ActiveSelectionLogic {
    #[verifier::type_invariant]
    pub(crate) open spec fn inv(&self) -> bool {
        layers_increase(self@.parts)
    }

    fn empty(tip: Option<HistoryAction>) -> (selection: ActiveSelectionLogic)
        ensures
            selection@ == (SelectionModel { parts: Seq::empty(), tip: tip_model(tip) }),
    {
        let layers: Vec<(usize, LayerSelection)> = Vec::new();
        assert(part_models(layers@) =~= Seq::empty());
        ActiveSelectionLogic { layers, tip }
    }

    /// Adds `ranges` on a layer, unioning into the existing part when the layer is already
    /// selected. `background` is the layer's non-selected content for a not-yet-selected layer;
    /// parts that already exist shrink their own background instead.
    fn merge_layer(
        &mut self,
        layer: usize,
        ranges: SortedRanges,
        background: Option<SortedRanges>,
    )
        ensures
            final(self)@.tip == old(self)@.tip,
            with_part(
                old(self)@.parts,
                layer as int,
                match part_of(old(self)@.parts, layer as int) {
                    Some(part) => part.merged(ranges@),
                    None => fresh_part(ranges@, pixels_of(background)),
                },
                final(self)@.parts,
            ),
    {
        proof {
            use_type_invariant(&*self);
        }
        let ghost start = self@.parts;
        let mut at: usize = 0;
        while at < self.layers.len() && self.layers[at].0 < layer
            invariant
                at <= self.layers@.len(),
                self@.parts == start,
                start == part_models(self.layers@),
                forall|k: int| 0 <= k < at ==> (#[trigger] start[k]).0 < layer,
            decreases self.layers@.len() - at,
        {
            assert(start[at as int].0 == self.layers@[at as int].0);
            at += 1;
        }
        let mut before = ActiveSelectionLogic::empty(None);
        core::mem::swap(self, &mut before);
        let tip = before.tip;
        let mut layers = before.layers;
        if at < layers.len() && layers[at].0 == layer {
            assert(start[at as int].0 == layer);
            layers[at].1.update(&ranges);
            proof {
                lemma_part_at(start, at as int);
                let after = part_models(layers@);
                assert(after =~= start.update(
                    at as int,
                    (layer as int, start[at as int].1.merged(ranges@)),
                ));
                lemma_replaced(start, at as int, start[at as int].1.merged(ranges@));
            }
        } else {
            let part = LayerSelection::fresh(ranges, background);
            layers.insert(at, (layer, part));
            proof {
                let after = part_models(layers@);
                assert(after =~= start.insert(at as int, (layer as int, part@)));
                if at < start.len() {
                    assert(start[at as int].0 > layer);
                }
                lemma_inserted(start, at as int, layer as int, part@);
            }
        }
        *self = ActiveSelectionLogic { layers, tip };
    }

    /// Fresh (replacing) selection of the given parts, which come in the order of their layers.
    /// Also gives the bounds of all that is selected.
    pub fn fresh_from_parts(
        parts: Vec<(usize, SortedRanges, Option<SortedRanges>)>,
        tip: Option<HistoryAction>,
    ) -> (fresh: (ActiveSelectionLogic, Roi))
        requires
            parts@.len() > 0,
            selected_increase(selected_models(parts@)),
        ensures
            fresh.0@ == (SelectionModel {
                parts: fresh_parts(selected_models(parts@)),
                tip: tip_model(tip),
            }),
            fresh.1.hugs(all_selected(selected_models(parts@), parts@.len() as int)),
    {
        let ghost models = selected_models(parts@);
        let mut layers: Vec<(usize, LayerSelection)> = Vec::new();
        let mut content: Roi = parts[0].1.roi();
        let mut k: usize = 0;
        assert(part_models(layers@) =~= fresh_parts(models).take(0));
        while k < parts.len()
            invariant
                k <= parts@.len(),
                parts@.len() > 0,
                models == selected_models(parts@),
                selected_increase(models),
                part_models(layers@) == fresh_parts(models).take(k as int),
                k == 0 ==> content.hugs(models[0].1),
                k > 0 ==> content.hugs(all_selected(models, k as int)),
            decreases parts@.len() - k,
        {
            assert(models[k as int] == selected_model(parts@[k as int]));
            let ranges: SortedRanges = parts[k].1.clone();
            let background: Option<SortedRanges> = match &parts[k].2 {
                Some(bg) => Some(bg.clone()),
                None => None,
            };
            let roi = ranges.roi();
            proof {
                if k == 0 {
                    hugging_roi_of_union(content, roi, models[0].1, ranges@);
                    assert(models[0].1.union(ranges@) =~= Set::empty().union(ranges@));
                } else {
                    hugging_roi_of_union(content, roi, all_selected(models, k as int), ranges@);
                }
            }
            content = content.union(&roi);
            let part = LayerSelection::fresh(ranges, background);
            let ghost was = layers@;
            layers.push((parts[k].0, part));
            proof {
                let all = fresh_parts(models);
                assert(all.take(k + 1) =~= all.take(k as int).push(all[k as int]));
                assert(part_models(layers@) =~= part_models(was).push(all[k as int]));
            }
            k += 1;
        }
        proof {
            let all = fresh_parts(models);
            assert(all.take(k as int) =~= all);
            assert forall|a: int, b: int| 0 <= a < b < all.len() implies all[a].0 < all[b].0 by {
                assert(models[a].0 < models[b].0);
            }
        }
        (ActiveSelectionLogic { layers, tip }, content)
    }

    /// Bakes placed pixels into the snapshot, so that the next transform starts from them, and
    /// takes note of the last history action.
    pub fn rebase(&mut self, tip: Option<HistoryAction>)
        ensures
            final(self)@ == (SelectionModel {
                parts: rebased_parts(old(self)@.parts),
                tip: tip_model(tip),
            }),
    {
        proof {
            use_type_invariant(&*self);
        }
        let ghost start = self@.parts;
        let mut before = ActiveSelectionLogic::empty(None);
        core::mem::swap(self, &mut before);
        let mut layers = before.layers;
        let ghost was = layers@;
        let mut k: usize = 0;
        while k < layers.len()
            invariant
                k <= layers@.len(),
                layers@.len() == was.len(),
                forall|j: int|
                    0 <= j < k ==> (#[trigger] layers@[j]).0 == was[j].0 && layers@[j].1@
                        == was[j].1@.rebased(),
                forall|j: int| k <= j < layers@.len() ==> layers@[j] == was[j],
            decreases layers@.len() - k,
        {
            layers[k].1.rebase();
            k += 1;
        }
        proof {
            assert(part_models(layers@) =~= rebased_parts(start));
            lemma_rebased_increase(start);
        }
        *self = ActiveSelectionLogic { layers, tip };
    }

    /// Adds to the selection: bakes placed pixels into the snapshot, so that later gestures
    /// transform old and new pixels uniformly, then unions every new part.
    pub fn merge_layers(
        &mut self,
        parts: Vec<(usize, SortedRanges, Option<SortedRanges>)>,
        tip: Option<HistoryAction>,
    )
        ensures
            final(self)@.tip == tip_model(tip),
            layers_increase(final(self)@.parts),
            forall|layer: int| #[trigger]
                part_of(final(self)@.parts, layer) == merged_part(
                    part_of(rebased_parts(old(self)@.parts), layer),
                    selected_models(parts@),
                    parts@.len() as int,
                    layer,
                ),
    {
        self.rebase(tip);
        let ghost start = self@.parts;
        let ghost models = selected_models(parts@);
        proof {
            use_type_invariant(&*self);
        }
        let mut k: usize = 0;
        while k < parts.len()
            invariant
                k <= parts@.len(),
                models == selected_models(parts@),
                self@.tip == tip_model(tip),
                layers_increase(self@.parts),
                forall|layer: int| #[trigger]
                    part_of(self@.parts, layer) == merged_part(
                        part_of(start, layer),
                        models,
                        k as int,
                        layer,
                    ),
            decreases parts@.len() - k,
        {
            assert(models[k as int] == selected_model(parts@[k as int]));
            let ranges: SortedRanges = parts[k].1.clone();
            let background: Option<SortedRanges> = match &parts[k].2 {
                Some(bg) => Some(bg.clone()),
                None => None,
            };
            let ghost before = self@.parts;
            self.merge_layer(parts[k].0, ranges, background);
            proof {
                assert forall|layer: int| #[trigger] part_of(self@.parts, layer) == merged_part(
                    part_of(start, layer),
                    models,
                    k + 1,
                    layer,
                ) by {
                    assert(part_of(before, layer) == merged_part(
                        part_of(start, layer),
                        models,
                        k as int,
                        layer,
                    ));
                }
            }
            k += 1;
        }
    }

    /// Whether the snapshot is stale against the current history tip.
    pub fn is_stale(&self, current: &Option<HistoryAction>) -> (stale: bool)
        ensures
            stale == (self@.tip != tip_model(*current)),
    {
        match (&self.tip, current) {
            (Some(a), Some(b)) => !(*a == *b),
            (None, None) => false,
            _ => true,
        }
    }

    /// Whether the placed pixels of the selection on `layer` cover `(x, y)`.
    pub fn covers_on_layer(&self, layer: usize, x: u32, y: u32) -> (covers: bool)
        ensures
            covers == (match part_of(self@.parts, layer as int) {
                Some(part) => part.committed.contains((x as int, y as int)),
                None => false,
            }),
    {
        proof {
            use_type_invariant(self);
        }
        let mut k: usize = 0;
        while k < self.layers.len()
            invariant
                k <= self.layers@.len(),
                self@.parts == part_models(self.layers@),
                layers_increase(self@.parts),
                forall|j: int| 0 <= j < k ==> (#[trigger] self@.parts[j]).0 != layer,
            decreases self.layers@.len() - k,
        {
            assert(self@.parts[k as int] == (self.layers@[k as int].0 as int, self.layers@[k as int].1@));
            if self.layers[k].0 == layer {
                proof {
                    lemma_part_at(self@.parts, k as int);
                }
                return match &self.layers[k].1.committed {
                    Some(committed) => committed.contains(x, y),
                    None => false,
                };
            }
            k += 1;
        }
        assert(!has_layer(self@.parts, layer as int));
        false
    }

    /// How many layers have a part in the selection.
    pub fn len(&self) -> (n: usize)
        ensures
            n == self@.parts.len(),
            layers_increase(self@.parts),
    {
        proof {
            use_type_invariant(self);
        }
        self.layers.len()
    }

    /// The layer of part `k`, and the part.
    pub(crate) fn part(&self, k: usize) -> (part: (usize, &LayerSelection))
        requires
            k < self@.parts.len(),
        ensures
            (part.0 as int, part.1@) == self@.parts[k as int],
    {
        let entry = &self.layers[k];
        (entry.0, &entry.1)
    }

    /// Takes note of where the parts were placed, and of the last history action.
    pub(crate) fn place(&mut self, new: Vec<Option<SortedRanges>>, tip: Option<HistoryAction>)
        requires
            new@.len() == old(self)@.parts.len(),
        ensures
            final(self)@.tip == tip_model(tip),
            final(self)@.parts.len() == old(self)@.parts.len(),
            forall|k: int|
                0 <= k < new@.len() ==> #[trigger] final(self)@.parts[k] == (
                    old(self)@.parts[k].0,
                    old(self)@.parts[k].1.placed(pixels_of(new@[k])),
                ),
    {
        proof {
            use_type_invariant(&*self);
        }
        let ghost start = self@.parts;
        let mut before = ActiveSelectionLogic::empty(None);
        core::mem::swap(self, &mut before);
        let mut layers = before.layers;
        let ghost was = layers@;
        let mut k: usize = 0;
        while k < layers.len()
            invariant
                k <= layers@.len(),
                layers@.len() == was.len(),
                layers@.len() == new@.len(),
                forall|j: int|
                    0 <= j < k ==> (#[trigger] layers@[j]).0 == was[j].0 && layers@[j].1@
                        == was[j].1@.placed(pixels_of(new@[j])),
                forall|j: int| k <= j < layers@.len() ==> layers@[j] == was[j],
            decreases layers@.len() - k,
        {
            layers[k].1.committed = clone_region(&new[k]);
            k += 1;
        }
        proof {
            let after = part_models(layers@);
            assert forall|i: int, j: int| 0 <= i < j < after.len() implies after[i].0
                < after[j].0 by {
                assert(start[i].0 < start[j].0);
            }
        }
        *self = ActiveSelectionLogic { layers, tip };
    }

    /// The pixels of part `k` that every transform starts from; `None` where there are none.
    pub fn original(&self, k: usize) -> (original: Option<&SortedRanges>)
        requires
            k < self@.parts.len(),
        ensures
            original is Some <==> self@.parts[k as int].1.original != Set::<(int, int)>::empty(),
            original matches Some(r) ==> r@ == self@.parts[k as int].1.original,
    {
        match &self.layers[k].1.original {
            Some(original) => {
                proof {
                    use_type_invariant(original);
                    lemma_filled(*original);
                }
                Some(original)
            },
            None => None,
        }
    }
}

/// Whether the newly selected parts come in the order of their layers, one for each.
pub open spec fn selected_increase(parts: Seq<(int, Set<(int, int)>, Set<(int, int)>)>) -> bool {
    forall|j: int, k: int| 0 <= j < k < parts.len() ==> parts[j].0 < parts[k].0
}

/// The parts as they are when just selected.
pub open spec fn fresh_parts(parts: Seq<(int, Set<(int, int)>, Set<(int, int)>)>) -> Seq<
    (int, PartModel),
> {
    parts.map_values(
        |p: (int, Set<(int, int)>, Set<(int, int)>)| (p.0, fresh_part(p.1, p.2)),
    )
}

/// All pixels of the first `n` newly selected parts.
pub open spec fn all_selected(
    parts: Seq<(int, Set<(int, int)>, Set<(int, int)>)>,
    n: int,
) -> Set<(int, int)>
    decreases n,
{
    if n <= 0 {
        Set::empty()
    } else {
        all_selected(parts, n - 1).union(parts[n - 1].1)
    }
}

pub open spec fn rebased_parts(parts: Seq<(int, PartModel)>) -> Seq<(int, PartModel)> {
    parts.map_values(|p: (int, PartModel)| (p.0, p.1.rebased()))
}

proof fn lemma_rebased_increase(parts: Seq<(int, PartModel)>)
    requires
        layers_increase(parts),
    ensures
        layers_increase(rebased_parts(parts)),
{
    let after = rebased_parts(parts);
    assert forall|j: int, k: int| 0 <= j < k < after.len() implies after[j].0 < after[k].0 by {
        assert(parts[j].0 < parts[k].0);
    }
}

/// Setting a part that is there.
proof fn lemma_replaced(parts: Seq<(int, PartModel)>, at: int, part: PartModel)
    requires
        layers_increase(parts),
        0 <= at < parts.len(),
    ensures
        with_part(parts, parts[at].0, part, parts.update(at, (parts[at].0, part))),
{
    let after = parts.update(at, (parts[at].0, part));
    assert forall|j: int, k: int| 0 <= j < k < after.len() implies after[j].0 < after[k].0 by {
        assert(parts[j].0 < parts[k].0);
    }
    assert forall|other: int| #[trigger] part_of(after, other) == if other == parts[at].0 {
        Some(part)
    } else {
        part_of(parts, other)
    } by {
        if has_layer(after, other) {
            let k = choose|k: int| 0 <= k < after.len() && (#[trigger] after[k]).0 == other;
            lemma_part_at(after, k);
            assert(parts[k].0 == other);
            lemma_part_at(parts, k);
            if other == parts[at].0 {
                lemma_part_at(after, at);
                assert(after[at].0 == other);
            }
        } else {
            if other == parts[at].0 {
                assert(after[at].0 == other);
            }
            if has_layer(parts, other) {
                let k = choose|k: int| 0 <= k < parts.len() && (#[trigger] parts[k]).0 == other;
                assert(after[k].0 == other);
            }
        }
    }
}

/// Setting a part that is not there yet.
proof fn lemma_inserted(parts: Seq<(int, PartModel)>, at: int, layer: int, part: PartModel)
    requires
        layers_increase(parts),
        0 <= at <= parts.len(),
        forall|k: int| 0 <= k < at ==> (#[trigger] parts[k]).0 < layer,
        at < parts.len() ==> parts[at].0 > layer,
    ensures
        with_part(parts, layer, part, parts.insert(at, (layer, part))),
        part_of(parts, layer) is None,
{
    let after = parts.insert(at, (layer, part));
    assert forall|k: int| at <= k < parts.len() implies (#[trigger] parts[k]).0 > layer by {
        if k > at {
            assert(parts[at].0 < parts[k].0);
        }
    }
    assert forall|k: int| 0 <= k < after.len() implies #[trigger] after[k] == (if k < at {
        parts[k]
    } else if k == at {
        (layer, part)
    } else {
        parts[k - 1]
    }) by {}
    assert forall|j: int, k: int| 0 <= j < k < after.len() implies after[j].0 < after[k].0 by {
        if k < at {
            assert(parts[j].0 < parts[k].0);
        } else if j > at {
            assert(parts[j - 1].0 < parts[k - 1].0);
        } else if j < at && k > at {
            assert(parts[j].0 < layer);
            assert(parts[k - 1].0 > layer);
        }
    }
    assert(after[at].0 == layer);
    lemma_part_at(after, at);
    if has_layer(parts, layer) {
        let k = choose|k: int| 0 <= k < parts.len() && (#[trigger] parts[k]).0 == layer;
        assert(false);
    }
    assert forall|other: int| #[trigger] part_of(after, other) == if other == layer {
        Some(part)
    } else {
        part_of(parts, other)
    } by {
        if other != layer {
            if has_layer(after, other) {
                let k = choose|k: int| 0 <= k < after.len() && (#[trigger] after[k]).0 == other;
                lemma_part_at(after, k);
                let m = if k < at { k } else { k - 1 };
                assert(parts[m] == after[k]);
                lemma_part_at(parts, m);
            } else if has_layer(parts, other) {
                let k = choose|k: int| 0 <= k < parts.len() && (#[trigger] parts[k]).0 == other;
                let m = if k < at { k } else { k + 1 };
                assert(after[m] == parts[k]);
                assert(after[m].0 == other);
            }
        }
    }
}

/// The part of a layer is the one that stands under it, and there is none where none does.
pub proof fn parts_stand_under_their_layers(parts: Seq<(int, PartModel)>, layer: int, k: int)
    requires
        forall|i: int, j: int| 0 <= i < j < parts.len() ==> parts[i].0 < parts[j].0,
    ensures
        0 <= k < parts.len() ==> part_of(parts, parts[k].0) == Some(parts[k].1),
        part_of(parts, layer) is Some <==> exists|j: int|
            0 <= j < parts.len() && (#[trigger] parts[j]).0 == layer,
{
    if 0 <= k < parts.len() {
        lemma_part_at(parts, k);
    }
}

/// A part that was just selected is where it was selected. After a rebase the next transform starts
/// from where the part is placed. Both keep which pixels are selected and which are not.
pub proof fn parts_start_where_they_are(
    parts: Seq<(int, PartModel)>,
    selected: Seq<(int, Set<(int, int)>, Set<(int, int)>)>,
    k: int,
)
    ensures
        rebased_parts(parts).len() == parts.len(),
        0 <= k < parts.len() ==> {
            let (layer, part) = rebased_parts(parts)[k];
            &&& layer == parts[k].0
            &&& part.original == parts[k].1.committed
            &&& part.committed == parts[k].1.committed
            &&& part.background == parts[k].1.background
        },
        fresh_parts(selected).len() == selected.len(),
        0 <= k < selected.len() ==> {
            let (layer, part) = fresh_parts(selected)[k];
            &&& layer == selected[k].0
            &&& part.original == selected[k].1
            &&& part.committed == selected[k].1
            &&& part.background == selected[k].2
        },
{
}

/// Selecting more pixels of a layer: a pixel is selected where it was or is among them, and it is left
/// as background where it was and is not.
pub proof fn more_pixels_are_selected(part: PartModel, ranges: Set<(int, int)>, p: (int, int))
    ensures
        part.merged(ranges).original.contains(p) <==> part.original.contains(p) || ranges.contains(p),
        part.merged(ranges).committed.contains(p) <==> part.committed.contains(p)
            || ranges.contains(p),
        part.merged(ranges).background.contains(p) <==> part.background.contains(p)
            && !ranges.contains(p),
        part.covered_background().contains(p) <==> part.background.contains(p)
            && part.committed.contains(p),
{
}

/// A part is taken for what it holds; a region that is not there has no pixel.
pub proof fn parts_are_what_they_hold(part: LayerSelection, p: (int, int))
    ensures
        part@.original.contains(p) <==> (part.original matches Some(r) && r@.contains(p)),
        part@.committed.contains(p) <==> (part.committed matches Some(r) && r@.contains(p)),
        part@.background.contains(p) <==> (part.background matches Some(r) && r@.contains(p)),
{
}

} // verus!
