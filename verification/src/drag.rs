//! The drag tool: selects mask pixels, then moves, resizes and rotates them.
//!
//! What the pointer grabs and how it transforms the selection is computed outside; the tool decides
//! what each frame does to its selection, to the gesture that is running and to the mask.
use crate::affected_layer::AffectedLayer;
use crate::anchor::{Anchor, HoverPart};
use crate::cluster::{cluster, cluster_at};
use crate::commit::{
    after_commit, after_delete, committed_selection, region_models, selection_matches,
};
use crate::history::ActionModel;
use crate::layer_stack::PixelAreaStack;
use crate::mask::{MaskImage, MaskModel};
use crate::pixel_area::LayerModel;
use crate::ranges::{Roi, SortedRanges};
use crate::selection::{
    all_selected, fresh_parts, last_applied, layers_increase, merged_part, part_of, rebased_parts,
    selected_increase, selected_model, selected_models, ActiveSelectionLogic, PartModel,
    SelectionModel,
};
use vstd::prelude::*;
use vstd::std_specs::convert::IntoSpec;

verus! {

/// In-progress pointer gesture.
#[derive(Clone, Copy, PartialEq, Eq, Structural, Debug)]
pub enum Gesture {
    /// A rectangle is being drawn.
    Rect,
    /// The view is being moved.
    Pan,
    /// The selection is being moved, resized or rotated.
    Transform,
}

/// What became of the selection, for whoever draws its frame.
pub enum SelectionChange {
    /// The selection is what it was.
    Kept,
    /// There is no selection.
    Dropped,
    /// The selection is a new one with these bounds.
    Fresh(Roi),
    /// The placed pixels are the new originals, and pixels with these bounds were added.
    Extended(Vec<Roi>),
}

/// The parts of the affected layers among the first `n` that `pick` takes something of, each with
/// the rest of its layer.
pub open spec fn picked_parts(
    stack: Seq<LayerModel>,
    affected: AffectedLayer,
    pick: spec_fn(Set<(int, int)>) -> Set<(int, int)>,
    n: int,
) -> Seq<(int, Set<(int, int)>, Set<(int, int)>)>
    decreases n,
{
    if n <= 0 {
        Seq::empty()
    } else {
        let lower = picked_parts(stack, affected, pick, n - 1);
        let pixels = stack[n - 1].pixels;
        if affected.affects_layer(n - 1) && pick(pixels) != Set::<(int, int)>::empty() {
            lower.push((n - 1, pick(pixels), pixels.difference(pick(pixels))))
        } else {
            lower
        }
    }
}

/// Takes the pixels inside a rectangle.
pub open spec fn inside(roi: Roi) -> spec_fn(Set<(int, int)>) -> Set<(int, int)> {
    |pixels: Set<(int, int)>| pixels.intersect(roi.area())
}

/// Takes all pixels.
pub open spec fn whole() -> spec_fn(Set<(int, int)>) -> Set<(int, int)> {
    |pixels: Set<(int, int)>| pixels
}

/// The uppermost affected layer among the first `n` that has the pixel.
pub open spec fn topmost_affected(
    stack: Seq<LayerModel>,
    affected: AffectedLayer,
    x: int,
    y: int,
    n: int,
) -> Option<int>
    decreases n,
{
    if n <= 0 {
        None
    } else if affected.affects_layer(n - 1) && stack[n - 1].pixels.contains((x, y)) {
        Some(n - 1)
    } else {
        topmost_affected(stack, affected, x, y, n - 1)
    }
}

/// The part that a click on the pixel of a layer selects: the cluster of the pixel.
pub open spec fn clicked_part(stack: Seq<LayerModel>, layer: int, x: int, y: int) -> Seq<
    (int, Set<(int, int)>, Set<(int, int)>),
> {
    let pixels = stack[layer].pixels;
    seq![(layer, cluster(pixels, (x, y)), pixels.difference(cluster(pixels, (x, y))))]
}

/// Whether `after` is the selection after selecting the parts: nothing where there is no part, an
/// addition to the selection where that is asked for and there is one, else a fresh selection.
pub open spec fn selected_into(
    before: Option<SelectionModel>,
    additive: bool,
    parts: Seq<(int, Set<(int, int)>, Set<(int, int)>)>,
    tip: Option<ActionModel>,
    after: Option<SelectionModel>,
) -> bool {
    if parts.len() == 0 {
        after is None
    } else if additive && before is Some {
        &&& after matches Some(a)
        &&& a.tip == tip
        &&& layers_increase(a.parts)
        &&& forall|layer: int| #[trigger]
            part_of(a.parts, layer) == merged_part(
                part_of(rebased_parts(before->0.parts), layer),
                parts,
                parts.len() as int,
                layer,
            )
    } else {
        after == Some(SelectionModel { parts: fresh_parts(parts), tip })
    }
}

/// Whether the change tells of the selection what became of it.
pub open spec fn tells_change(
    change: SelectionChange,
    before: Option<SelectionModel>,
    additive: bool,
    parts: Seq<(int, Set<(int, int)>, Set<(int, int)>)>,
) -> bool {
    if parts.len() == 0 {
        change is Dropped
    } else if additive && before is Some {
        change matches SelectionChange::Extended(rois) && rois@.len() == parts.len() && forall|
            k: int,
        |
            0 <= k < parts.len() ==> (#[trigger] rois@[k]).hugs(parts[k].1)
    } else {
        change matches SelectionChange::Fresh(roi) && roi.hugs(
            all_selected(parts, parts.len() as int),
        )
    }
}

/// What is selected, where there is a selection.
pub open spec fn selection_model(selection: Option<ActiveSelectionLogic>) -> Option<SelectionModel> {
    match selection {
        Some(s) => Some(s@),
        None => None,
    }
}

/// Whether the selection, where there is one, matches the layers.
pub open spec fn in_step(selection: Option<SelectionModel>, stack: Seq<LayerModel>) -> bool {
    selection matches Some(s) ==> selection_matches(s.parts, stack)
}

/// Drag-select + transform tool. It never adds or removes pixels itself (commits only move
/// already-selected pixels), so there is no mode to switch. It only owns the filter of layers.
pub struct DragTool {
    pub layer: AffectedLayer,
    /// Dragging on empty space pans instead of rect-selecting.
    pub pan_on_drag: bool,
    pub selection: Option<ActiveSelectionLogic>,
    pub gesture: Option<Gesture>,
}

impl Default for DragTool {
    fn default() -> (tool: Self)
        ensures
            tool.layer == AffectedLayer::Unspecified,
            !tool.pan_on_drag,
            tool.selection is None,
            tool.gesture is None,
    {
        DragTool {
            layer: AffectedLayer::Unspecified,
            pan_on_drag: false,
            selection: None,
            gesture: None,
        }
    }
}

impl DragTool {
    /// Sets the layers that the tool selects from. The tool is handed out for more changes.
    pub fn set_layer<L: Into<AffectedLayer>>(&mut self, layer: L) -> (tool: &mut Self)
        ensures
            call_ensures(<L as Into<AffectedLayer>>::into, (layer,), tool.layer),
            L::obeys_into_spec() ==> tool.layer == layer.into_spec(),
            tool.pan_on_drag == old(self).pan_on_drag,
            tool.selection == old(self).selection,
            tool.gesture == old(self).gesture,
            *final(self) == *final(tool),
    {
        self.layer = layer.into();
        self
    }

    /// Sets whether a drag on empty space pans. The tool is handed out for more changes.
    pub fn set_pan_on_drag(&mut self, pan_on_drag: bool) -> (tool: &mut Self)
        ensures
            tool.layer == old(self).layer,
            tool.pan_on_drag == pan_on_drag,
            tool.selection == old(self).selection,
            tool.gesture == old(self).gesture,
            *final(self) == *final(tool),
    {
        self.pan_on_drag = pan_on_drag;
        self
    }

    /// Replaces the selection by the parts, or adds them to it.
    fn select_internal(
        &mut self,
        masks: &MaskImage,
        additive: bool,
        parts: Vec<(usize, SortedRanges, Option<SortedRanges>)>,
    ) -> (change: SelectionChange)
        requires
            selected_increase(selected_models(parts@)),
        ensures
            final(self).layer == old(self).layer,
            final(self).pan_on_drag == old(self).pan_on_drag,
            final(self).gesture == old(self).gesture,
            selected_into(
                selection_model(old(self).selection),
                additive,
                selected_models(parts@),
                last_applied(masks@.history),
                selection_model(final(self).selection),
            ),
            tells_change(
                change,
                selection_model(old(self).selection),
                additive,
                selected_models(parts@),
            ),
    {
        if parts.len() == 0 {
            self.selection = None;
            return SelectionChange::Dropped;
        }
        let tip = masks.last_history_action();
        let mut current: Option<ActiveSelectionLogic> = None;
        core::mem::swap(&mut self.selection, &mut current);
        match current {
            Some(mut selection) if additive => {
                let rois = bounds_of_parts(&parts);
                selection.merge_layers(parts, tip);
                self.selection = Some(selection);
                SelectionChange::Extended(rois)
            },
            _ => {
                let (fresh, roi) = ActiveSelectionLogic::fresh_from_parts(parts, tip);
                self.selection = Some(fresh);
                SelectionChange::Fresh(roi)
            },
        }
    }
}

/// Whether each part is of a layer of the stack: some of its pixels, and the rest of them.
pub open spec fn parts_from(
    parts: Seq<(int, Set<(int, int)>, Set<(int, int)>)>,
    stack: Seq<LayerModel>,
) -> bool {
    &&& stack.len() <= usize::MAX
    &&& forall|k: int|
        0 <= k < parts.len() ==> {
            let (layer, ranges, background) = #[trigger] parts[k];
            &&& 0 <= layer < stack.len()
            &&& ranges.subset_of(stack[layer].pixels)
            &&& background == stack[layer].pixels.difference(ranges)
        }
}

/// A fresh selection of parts of the layers matches the layers.
pub proof fn fresh_selection_matches(
    parts: Seq<(int, Set<(int, int)>, Set<(int, int)>)>,
    stack: Seq<LayerModel>,
)
    requires
        parts_from(parts, stack),
        selected_increase(parts),
    ensures
        selection_matches(fresh_parts(parts), stack),
{
    let fresh = fresh_parts(parts);
    assert forall|j: int, k: int| 0 <= j < k < fresh.len() implies fresh[j].0 < fresh[k].0 by {
        assert(parts[j].0 < parts[k].0);
    }
    assert forall|k: int| 0 <= k < fresh.len() implies ({
        let (layer, part) = #[trigger] fresh[k];
        &&& 0 <= layer < stack.len()
        &&& layer <= usize::MAX
        &&& stack[layer].pixels == part.committed.union(part.background)
    }) by {
        let (layer, ranges, background) = parts[k];
        assert(ranges.union(background) =~= stack[layer].pixels);
    }
}

proof fn lemma_merged_part(
    before: Option<PartModel>,
    parts: Seq<(int, Set<(int, int)>, Set<(int, int)>)>,
    n: int,
    layer: int,
    stack: Seq<LayerModel>,
)
    requires
        parts_from(parts, stack),
        0 <= n <= parts.len(),
        before matches Some(part) ==> 0 <= layer < stack.len() && stack[layer].pixels
            == part.committed.union(part.background),
    ensures
        merged_part(before, parts, n, layer) matches Some(part) ==> 0 <= layer < stack.len()
            && stack[layer].pixels == part.committed.union(part.background),
    decreases n,
{
    if n > 0 {
        lemma_merged_part(before, parts, n - 1, layer, stack);
        let (at, ranges, background) = parts[n - 1];
        if at == layer {
            let pixels = stack[layer].pixels;
            match merged_part(before, parts, n - 1, layer) {
                Some(part) => {
                    let m = part.merged(ranges);
                    assert(m.committed.union(m.background) =~= pixels);
                },
                None => {
                    assert(ranges.union(background) =~= pixels);
                },
            }
        }
    }
}

/// A selection that matches the layers still does after parts of the layers were added to it.
pub proof fn merged_selection_matches(
    before: Seq<(int, PartModel)>,
    parts: Seq<(int, Set<(int, int)>, Set<(int, int)>)>,
    after: Seq<(int, PartModel)>,
    stack: Seq<LayerModel>,
)
    requires
        selection_matches(before, stack),
        parts_from(parts, stack),
        layers_increase(after),
        forall|layer: int| #[trigger]
            part_of(after, layer) == merged_part(
                part_of(rebased_parts(before), layer),
                parts,
                parts.len() as int,
                layer,
            ),
    ensures
        selection_matches(after, stack),
{
    let rebased = rebased_parts(before);
    assert forall|j: int, k: int| 0 <= j < k < rebased.len() implies rebased[j].0
        < rebased[k].0 by {
        assert(before[j].0 < before[k].0);
    }
    assert forall|k: int| 0 <= k < after.len() implies ({
        let (layer, part) = #[trigger] after[k];
        &&& 0 <= layer < stack.len()
        &&& layer <= usize::MAX
        &&& stack[layer].pixels == part.committed.union(part.background)
    }) by {
        let (layer, part) = after[k];
        crate::selection::lemma_part_at(after, k);
        let old_part = part_of(rebased, layer);
        if old_part is Some {
            let j = choose|j: int| 0 <= j < rebased.len() && (#[trigger] rebased[j]).0 == layer;
            crate::selection::lemma_part_at(rebased, j);
            assert(rebased[j] == (before[j].0, before[j].1.rebased()));
        }
        lemma_merged_part(old_part, parts, parts.len() as int, layer, stack);
    }
}

proof fn lemma_selected_in_step(
    before: Option<SelectionModel>,
    additive: bool,
    parts: Seq<(int, Set<(int, int)>, Set<(int, int)>)>,
    tip: Option<ActionModel>,
    after: Option<SelectionModel>,
    stack: Seq<LayerModel>,
)
    requires
        selected_into(before, additive, parts, tip, after),
        parts_from(parts, stack),
        selected_increase(parts),
    ensures
        in_step(before, stack) ==> in_step(after, stack),
{
    if in_step(before, stack) && parts.len() > 0 {
        if additive && before is Some {
            merged_selection_matches(before->0.parts, parts, after->0.parts, stack);
        } else {
            fresh_selection_matches(parts, stack);
        }
    }
}

proof fn lemma_picked_parts(
    stack: Seq<LayerModel>,
    affected: AffectedLayer,
    pick: spec_fn(Set<(int, int)>) -> Set<(int, int)>,
    n: int,
)
    requires
        0 <= n <= stack.len() <= usize::MAX,
        forall|s: Set<(int, int)>| (#[trigger] pick(s)).subset_of(s),
    ensures
        parts_from(picked_parts(stack, affected, pick, n), stack),
        selected_increase(picked_parts(stack, affected, pick, n)),
        forall|k: int|
            0 <= k < picked_parts(stack, affected, pick, n).len() ==> (#[trigger] picked_parts(
                stack,
                affected,
                pick,
                n,
            )[k]).0 < n,
    decreases n,
{
    if n > 0 {
        lemma_picked_parts(stack, affected, pick, n - 1);
        let lower = picked_parts(stack, affected, pick, n - 1);
        let all = picked_parts(stack, affected, pick, n);
        let pixels = stack[n - 1].pixels;
        if affected.affects_layer(n - 1) && pick(pixels) != Set::<(int, int)>::empty() {
            assert(all == lower.push((n - 1, pick(pixels), pixels.difference(pick(pixels)))));
            assert forall|k: int| 0 <= k < all.len() implies ({
                let (layer, ranges, background) = #[trigger] all[k];
                &&& 0 <= layer < stack.len()
                &&& ranges.subset_of(stack[layer].pixels)
                &&& background == stack[layer].pixels.difference(ranges)
                &&& layer < n
            }) by {
                if k < lower.len() {
                    assert(all[k] == lower[k]);
                }
            }
            assert forall|j: int, k: int| 0 <= j < k < all.len() implies all[j].0 < all[k].0 by {
                assert(all[j] == lower[j]);
            }
        }
    }
}

/// What `rect` takes of the affected layers, or all of them.
pub open spec fn pick_of(rect: Option<Roi>) -> spec_fn(Set<(int, int)>) -> Set<(int, int)> {
    match rect {
        Some(roi) => inside(roi),
        None => whole(),
    }
}

/// The parts of the affected layers inside the rectangle, or all of them, each with the rest of its
/// layer.
fn layer_ranges(stack: &PixelAreaStack, affected: AffectedLayer, rect: Option<Roi>) -> (parts: Vec<
    (usize, SortedRanges, Option<SortedRanges>),
>)
    ensures
        selected_models(parts@) == picked_parts(
            stack@,
            affected,
            pick_of(rect),
            stack@.len() as int,
        ),
        selected_increase(selected_models(parts@)),
        parts_from(selected_models(parts@), stack@),
{
    let ghost pick = pick_of(rect);
    let mut parts: Vec<(usize, SortedRanges, Option<SortedRanges>)> = Vec::new();
    let n: usize = stack.max_layer();
    let mut i: usize = 0;
    assert(selected_models(parts@) =~= picked_parts(stack@, affected, pick, 0));
    while i < n
        invariant
            i <= n,
            n == stack@.len(),
            pick == pick_of(rect),
            selected_models(parts@) == picked_parts(stack@, affected, pick, i as int),
        decreases n - i,
    {
        let ghost pixels = stack@[i as int].pixels;
        let ghost was = parts@;
        if affected.affects(i) {
            match stack.get(i) {
                Some(area) => {
                    let selected: Option<SortedRanges> = match rect {
                        Some(roi) => area.pixels.clip(roi),
                        None => Some(area.pixels.clone()),
                    };
                    if let Some(ranges) = selected {
                        assert(ranges@ == pick(pixels));
                        let background = area.pixels.subtract(&ranges);
                        proof {
                            if background is None {
                                assert(pixels.difference(ranges@) =~= Set::empty());
                            }
                            use_type_invariant(&ranges);
                            crate::pixel_area::lemma_filled(ranges);
                        }
                        let part = (i, ranges, background);
                        parts.push(part);
                        assert(selected_models(parts@) =~= selected_models(was).push(
                            selected_model(part),
                        ));
                    } else {
                        assert(pick(pixels) == Set::<(int, int)>::empty());
                    }
                },
                None => {
                    assert(pixels == Set::<(int, int)>::empty());
                    assert(pick(pixels) =~= Set::empty());
                },
            }
        }
        i += 1;
    }
    proof {
        assert forall|s: Set<(int, int)>| (#[trigger] pick(s)).subset_of(s) by {}
        lemma_picked_parts(stack@, affected, pick, n as int);
    }
    parts
}

impl DragTool {
    /// Builds a selection from a finished rectangle: all pixels inside it, on every layer that the
    /// tool selects from. With `additive` the pixels are unioned into the existing selection
    /// instead of replacing it; an empty rectangle then keeps the selection unchanged.
    pub fn select_rect(&mut self, masks: &MaskImage, roi: Roi, additive: bool) -> (change:
        SelectionChange)
        requires
            masks.wf(),
        ensures
            final(self).layer == old(self).layer,
            final(self).pan_on_drag == old(self).pan_on_drag,
            final(self).gesture == old(self).gesture,
            ({
                let stack = masks@.stack();
                let parts = picked_parts(stack, old(self).layer, inside(roi), stack.len() as int);
                let before = selection_model(old(self).selection);
                let after = selection_model(final(self).selection);
                &&& if additive && parts.len() == 0 {
                    after == before && change is Kept
                } else {
                    selected_into(
                        before,
                        additive,
                        parts,
                        last_applied(masks@.history),
                        after,
                    ) && tells_change(change, before, additive, parts)
                }
                &&& in_step(before, stack) ==> in_step(after, stack)
            }),
    {
        let parts = layer_ranges(masks.subgroups_stack(), self.layer, Some(roi));
        if additive && parts.len() == 0 {
            return SelectionChange::Kept;
        }
        let ghost models = selected_models(parts@);
        let change = self.select_internal(masks, additive, parts);
        proof {
            lemma_selected_in_step(
                selection_model(old(self).selection),
                additive,
                models,
                last_applied(masks@.history),
                selection_model(self.selection),
                masks@.stack(),
            );
        }
        change
    }

    /// Selects whole mask layers: all pixels of every layer matched by `layer` (e.g. `2` or
    /// `0..3`). Behaves like a fresh selection, and any in-progress gesture is dropped. Layers
    /// without pixels are skipped; if nothing matches, the selection is dropped. Does not intersect
    /// with the tool's own filter: the caller names the layers explicitly.
    pub fn select_layers<L: Into<AffectedLayer>>(&mut self, masks: &MaskImage, layer: L) -> (change:
        SelectionChange)
        requires
            masks.wf(),
        ensures
            final(self).layer == old(self).layer,
            final(self).pan_on_drag == old(self).pan_on_drag,
            final(self).gesture is None,
            exists|affected: AffectedLayer| #[trigger]
                call_ensures(<L as Into<AffectedLayer>>::into, (layer,), affected) && ({
                    let stack = masks@.stack();
                    let parts = picked_parts(stack, affected, whole(), stack.len() as int);
                    let before = selection_model(old(self).selection);
                    &&& selected_into(
                        before,
                        false,
                        parts,
                        last_applied(masks@.history),
                        selection_model(final(self).selection),
                    )
                    &&& tells_change(change, before, false, parts)
                }),
            in_step(selection_model(final(self).selection), masks@.stack()),
    {
        let affected: AffectedLayer = layer.into();
        let parts = layer_ranges(masks.subgroups_stack(), affected, None);
        let ghost models = selected_models(parts@);
        self.selection = None;
        let change = self.select_internal(masks, false, parts);
        proof {
            lemma_selected_in_step(
                None,
                false,
                models,
                last_applied(masks@.history),
                selection_model(self.selection),
                masks@.stack(),
            );
        }
        self.gesture = None;
        change
    }

    /// Click: selects the cluster under the cursor (8-connected component of the topmost affected
    /// layer at the pixel), or deselects on empty (no affected layer covers the pixel). With
    /// `additive`, the cluster is added to the existing selection, across layers, instead of
    /// replacing it; then a click on empty and one on an already selected pixel change nothing.
    pub fn click_select(&mut self, masks: &MaskImage, x: u32, y: u32, additive: bool) -> (change:
        SelectionChange)
        requires
            masks.wf(),
        ensures
            final(self).layer == old(self).layer,
            final(self).pan_on_drag == old(self).pan_on_drag,
            final(self).gesture == old(self).gesture,
            ({
                let stack = masks@.stack();
                let before = selection_model(old(self).selection);
                let after = selection_model(final(self).selection);
                &&& match topmost_affected(
                    stack,
                    old(self).layer,
                    x as int,
                    y as int,
                    stack.len() as int,
                ) {
                    None => if additive {
                        after == before && change is Kept
                    } else {
                        after is None && change is Dropped
                    },
                    Some(i) => if additive && is_selected_at(before, i, x as int, y as int) {
                        after == before && change is Kept
                    } else {
                        let parts = clicked_part(stack, i, x as int, y as int);
                        selected_into(
                            before,
                            additive,
                            parts,
                            last_applied(masks@.history),
                            after,
                        ) && tells_change(change, before, additive, parts)
                    },
                }
                &&& in_step(before, stack) ==> in_step(after, stack)
            }),
    {
        let stack = masks.subgroups_stack();
        let mut parts: Vec<(usize, SortedRanges, Option<SortedRanges>)> = Vec::new();
        let n: usize = stack.max_layer();
        let mut i: usize = n;
        while i > 0
            invariant
                i <= n,
                n == stack@.len(),
                stack@ == masks@.stack(),
                masks.wf(),
                parts@.len() == 0,
                *self == *old(self),
                topmost_affected(stack@, self.layer, x as int, y as int, i as int)
                    == topmost_affected(stack@, self.layer, x as int, y as int, n as int),
            decreases i,
        {
            i -= 1;
            if self.layer.affects(i) {
                if let Some(area) = stack.get(i) {
                    if let Some(ranges) = cluster_at(&area.pixels, x, y) {
                        if additive {
                            if let Some(selection) = &self.selection {
                                if selection.covers_on_layer(i, x, y) {
                                    return SelectionChange::Kept;
                                }
                            }
                        }
                        let ghost pixels = stack@[i as int].pixels;
                        let background = area.pixels.subtract(&ranges);
                        proof {
                            if background is None {
                                assert(pixels.difference(ranges@) =~= Set::empty());
                            }
                        }
                        let part = (i, ranges, background);
                        parts.push(part);
                        let ghost models = selected_models(parts@);
                        proof {
                            assert(models =~= clicked_part(
                                stack@,
                                i as int,
                                x as int,
                                y as int,
                            ));
                            crate::cluster::cluster_in_region(pixels, (x as int, y as int));
                        }
                        let change = self.select_internal(masks, additive, parts);
                        proof {
                            lemma_selected_in_step(
                                selection_model(old(self).selection),
                                additive,
                                models,
                                last_applied(masks@.history),
                                selection_model(self.selection),
                                masks@.stack(),
                            );
                        }
                        return change;
                    }
                }
            }
        }
        if additive {
            return SelectionChange::Kept;
        }
        self.selection = None;
        SelectionChange::Dropped
    }
}

/// Whether the selection has placed the pixel on the layer.
pub open spec fn is_selected_at(
    selection: Option<SelectionModel>,
    layer: int,
    x: int,
    y: int,
) -> bool {
    match selection {
        Some(s) => match part_of(s.parts, layer) {
            Some(part) => part.committed.contains((x, y)),
            None => false,
        },
        None => false,
    }
}

fn none_left(regions: &Vec<Option<SortedRanges>>) -> (gone: bool)
    ensures
        gone == all_gone(regions@),
{
    let mut k: usize = 0;
    while k < regions.len()
        invariant
            k <= regions@.len(),
            forall|j: int| 0 <= j < k ==> #[trigger] regions@[j] is None,
        decreases regions@.len() - k,
    {
        if regions[k].is_some() {
            return false;
        }
        k += 1;
    }
    true
}

fn bounds_of_parts(parts: &Vec<(usize, SortedRanges, Option<SortedRanges>)>) -> (rois: Vec<Roi>)
    ensures
        rois@.len() == parts@.len(),
        forall|k: int|
            0 <= k < parts@.len() ==> (#[trigger] rois@[k]).hugs(selected_models(parts@)[k].1),
{
    let mut rois: Vec<Roi> = Vec::new();
    let mut k: usize = 0;
    while k < parts.len()
        invariant
            k <= parts@.len(),
            rois@.len() == k,
            forall|j: int|
                0 <= j < k ==> (#[trigger] rois@[j]).hugs(selected_models(parts@)[j].1),
        decreases parts@.len() - k,
    {
        assert(selected_models(parts@)[k as int] == selected_model(parts@[k as int]));
        rois.push(parts[k].1.roi());
        k += 1;
    }
    rois
}

/// What the keys of a frame do before its pointer is looked at.
pub struct FrameStart {
    /// The gesture that goes on.
    pub gesture: Option<Gesture>,
    /// A transform was cancelled: its start is to be restored.
    pub cancelled_transform: bool,
    /// No other image may be shown in place of this one.
    pub postpone_new_images: bool,
}

/// What the pointer does while no gesture is running.
#[derive(Clone, Copy, Debug)]
pub struct IdleEvent {
    pub drag_started: bool,
    /// Where the drag started: the part of the selection overlay, and the nearest pixel.
    pub press: Option<(HoverPart, (u32, u32))>,
    pub clicked: bool,
    pub drag_stopped: bool,
    /// The pixel nearest to the pointer.
    pub pointer: Option<(u32, u32)>,
    pub shift: bool,
}

/// The cursor over the image.
#[derive(Clone, Copy, PartialEq, Eq, Structural, Debug)]
pub enum HoverCursor {
    /// That of the transform that is running.
    Transform,
    AllScroll,
    Crosshair,
    Move,
    Resize(Anchor),
    Grab,
}

/// Whether no part has a pixel left in the image.
pub open spec fn all_gone(new: Seq<Option<SortedRanges>>) -> bool {
    forall|k: int| 0 <= k < new.len() ==> #[trigger] new[k] is None
}

/// What is selected after the parts of a selection were placed: nothing, where none of them is in
/// the image any more.
pub open spec fn kept_selection(
    mask: MaskModel,
    selection: SelectionModel,
    new: Seq<Option<SortedRanges>>,
) -> Option<SelectionModel> {
    if all_gone(new) {
        None
    } else {
        Some(committed_selection(mask, selection, region_models(new)))
    }
}

impl DragTool {
    /// The settings of the tool, which no frame changes.
    pub open spec fn same_settings(&self, other: &DragTool) -> bool {
        self.layer == other.layer && self.pan_on_drag == other.pan_on_drag
    }

    /// The keys. Escape cancels a running gesture, or drops the idle selection. A selection that the
    /// mask has changed under is dropped, and with it the gesture, whatever is pressed: it no longer
    /// matches the mask. Delete removes the selected pixels and the selection.
    pub fn start_frame(&mut self, masks: &mut MaskImage, escape: bool, delete: bool) -> (start:
        FrameStart)
        requires
            old(masks).wf(),
        ensures
            final(masks).wf(),
            final(masks)@ != old(masks)@ ==> final(masks)@.history.can_undo()
                && final(masks)@.after_undo_key(false).stack() == old(masks)@.stack(),
            final(self).same_settings(old(self)),
            final(self).gesture == start.gesture,
            ({
                let before = selection_model(old(self).selection);
                let running = old(self).gesture;
                let kept = if escape && running is None {
                    None
                } else {
                    before
                };
                let stale = kept is Some && kept->0.tip != last_applied(old(masks)@.history);
                &&& start.cancelled_transform == (escape && running == Some(Gesture::Transform)
                    && before is Some)
                &&& match kept {
                    Some(selection) if delete && !stale => {
                        &&& final(masks)@ == after_delete(old(masks)@, selection.parts)
                        &&& selection_model(final(self).selection) is None
                        &&& start.gesture is None
                        &&& !start.postpone_new_images
                    },
                    _ => {
                        &&& final(masks)@ == old(masks)@
                        &&& selection_model(final(self).selection) == if stale {
                            None
                        } else {
                            kept
                        }
                        &&& start.gesture == if escape || stale {
                            None
                        } else {
                            running
                        }
                        &&& start.postpone_new_images == (kept is Some && !stale)
                    },
                }
            }),
    {
        let running: Option<Gesture> = self.gesture;
        let cancelled_transform: bool = escape && self.selection.is_some() && match running {
            Some(gesture) => gesture == Gesture::Transform,
            None => false,
        };
        if escape {
            if running.is_none() {
                self.selection = None;
            }
            self.gesture = None;
        }
        let mut current: Option<ActiveSelectionLogic> = None;
        core::mem::swap(&mut self.selection, &mut current);
        match current {
            Some(selection) => {
                let tip = masks.last_history_action();
                if selection.is_stale(&tip) {
                    self.gesture = None;
                    FrameStart { gesture: None, cancelled_transform, postpone_new_images: false }
                } else if delete {
                    selection.delete_all(masks);
                    self.gesture = None;
                    FrameStart { gesture: None, cancelled_transform, postpone_new_images: false }
                } else {
                    self.selection = Some(selection);
                    FrameStart {
                        gesture: self.gesture,
                        cancelled_transform,
                        postpone_new_images: true,
                    }
                }
            },
            None => FrameStart {
                gesture: self.gesture,
                cancelled_transform,
                postpone_new_images: false,
            },
        }
    }

    /// Pan step: ends when the drag does.
    pub fn step_pan(&mut self, drag_stopped: bool)
        ensures
            final(self).same_settings(old(self)),
            final(self).selection == old(self).selection,
            final(self).gesture == if drag_stopped {
                None
            } else {
                Some(Gesture::Pan)
            },
    {
        self.gesture = if drag_stopped {
            None
        } else {
            Some(Gesture::Pan)
        };
    }

    /// Rect-select step: selects on release (Shift adds instead of replacing) and ends; otherwise
    /// keeps the rubber band running while the drag goes on.
    pub fn step_rect(
        &mut self,
        masks: &MaskImage,
        finished: Option<Roi>,
        dragged: bool,
        shift: bool,
    ) -> (change: SelectionChange)
        requires
            masks.wf(),
        ensures
            final(self).same_settings(old(self)),
            final(self).gesture == if finished is None && dragged {
                Some(Gesture::Rect)
            } else {
                None
            },
            ({
                let stack = masks@.stack();
                let before = selection_model(old(self).selection);
                let after = selection_model(final(self).selection);
                &&& match finished {
                    Some(roi) => {
                        let parts = picked_parts(
                            stack,
                            old(self).layer,
                            inside(roi),
                            stack.len() as int,
                        );
                        if shift && parts.len() == 0 {
                            after == before && change is Kept
                        } else {
                            selected_into(
                                before,
                                shift,
                                parts,
                                last_applied(masks@.history),
                                after,
                            ) && tells_change(change, before, shift, parts)
                        }
                    },
                    None => after == before && change is Kept,
                }
                &&& in_step(before, stack) ==> in_step(after, stack)
            }),
    {
        match finished {
            Some(roi) => {
                let change = self.select_rect(masks, roi, shift);
                self.gesture = None;
                change
            },
            None => {
                self.gesture = if dragged {
                    Some(Gesture::Rect)
                } else {
                    None
                };
                SelectionChange::Kept
            },
        }
    }

    /// Transform step: commits when the drag ends (or the pointer is gone), which ends the gesture.
    /// `finished` then holds the transformed pixels of each part, as far as they are in the image.
    pub fn step_transform(
        &mut self,
        masks: &mut MaskImage,
        finished: Option<Vec<Option<SortedRanges>>>,
    )
        requires
            old(masks).wf(),
            finished matches Some(new) ==> (selection_model(old(self).selection) matches Some(s)
                ==> new@.len() == s.parts.len()),
        ensures
            final(masks).wf(),
            final(masks)@ != old(masks)@ ==> final(masks)@.history.can_undo()
                && final(masks)@.after_undo_key(false).stack() == old(masks)@.stack(),
            final(self).same_settings(old(self)),
            final(self).gesture == if finished is None && old(self).selection is Some {
                Some(Gesture::Transform)
            } else {
                None
            },
            match (finished, selection_model(old(self).selection)) {
                (Some(new), Some(selection)) => {
                    &&& final(masks)@ == after_commit(
                        old(masks)@,
                        selection.parts,
                        region_models(new@),
                    )
                    &&& selection_model(final(self).selection) == kept_selection(
                        old(masks)@,
                        selection,
                        new@,
                    )
                },
                (_, selection) => final(masks)@ == old(masks)@ && selection_model(
                    final(self).selection,
                ) == selection,
            },
    {
        match finished {
            Some(new) => {
                self.commit(masks, new);
                self.gesture = None;
            },
            None => {
                self.gesture = if self.selection.is_some() {
                    Some(Gesture::Transform)
                } else {
                    None
                };
            },
        }
    }

    /// Commits the current transform, where `new` holds the transformed pixels of each part, as far
    /// as they are in the image. If nothing remains visible, the selection is dropped: an empty box
    /// is never shown.
    pub fn commit(&mut self, masks: &mut MaskImage, new: Vec<Option<SortedRanges>>)
        requires
            old(masks).wf(),
            selection_model(old(self).selection) matches Some(s) ==> new@.len() == s.parts.len(),
        ensures
            final(masks).wf(),
            final(masks)@ != old(masks)@ ==> final(masks)@.history.can_undo()
                && final(masks)@.after_undo_key(false).stack() == old(masks)@.stack(),
            final(self).same_settings(old(self)),
            final(self).gesture == old(self).gesture,
            selection_model(old(self).selection) matches Some(s) ==> layers_increase(s.parts),
            match selection_model(old(self).selection) {
                Some(selection) => {
                    &&& final(masks)@ == after_commit(
                        old(masks)@,
                        selection.parts,
                        region_models(new@),
                    )
                    &&& selection_model(final(self).selection) == kept_selection(
                        old(masks)@,
                        selection,
                        new@,
                    )
                },
                None => final(masks)@ == old(masks)@ && selection_model(
                    final(self).selection,
                ) is None,
            },
    {
        let mut current: Option<ActiveSelectionLogic> = None;
        core::mem::swap(&mut self.selection, &mut current);
        if let Some(selection) = current {
            let gone: bool = none_left(&new);
            let after = selection.commit(masks, new);
            if !gone {
                self.selection = after;
            }
        }
    }

    /// Deletes all pixels of the current selection, on every selected layer, then drops the
    /// selection and the gesture. One undo reverts the whole deletion.
    pub fn delete_selection(&mut self, masks: &mut MaskImage)
        requires
            old(masks).wf(),
        ensures
            final(masks).wf(),
            final(masks)@ != old(masks)@ ==> final(masks)@.history.can_undo()
                && final(masks)@.after_undo_key(false).stack() == old(masks)@.stack(),
            final(self).same_settings(old(self)),
            selection_model(final(self).selection) is None,
            selection_model(old(self).selection) matches Some(s) ==> layers_increase(s.parts),
            match selection_model(old(self).selection) {
                Some(selection) => final(masks)@ == after_delete(old(masks)@, selection.parts)
                    && final(self).gesture is None,
                None => final(masks)@ == old(masks)@ && final(self).gesture == old(self).gesture,
            },
    {
        let mut current: Option<ActiveSelectionLogic> = None;
        core::mem::swap(&mut self.selection, &mut current);
        if let Some(selection) = current {
            self.gesture = None;
            selection.delete_all(masks);
        }
    }

    /// Empty-space interaction: pan when `pan_on_drag` is set and no layer covers the pixel, else
    /// start a rect selection.
    fn start_empty_space_gesture(&self, masks: &MaskImage, pixel: (u32, u32)) -> (gesture: Gesture)
        requires
            masks.wf(),
        ensures
            gesture == empty_space_gesture(
                self.pan_on_drag,
                masks@.stack(),
                pixel.0 as int,
                pixel.1 as int,
            ),
    {
        if self.pan_on_drag {
            let covering = masks.find_layer_at(pixel);
            proof {
                if let Some(i) = covering {
                    assert(masks@.stack()[i as int].pixels.contains(
                        (pixel.0 as int, pixel.1 as int),
                    ));
                }
            }
            if covering.is_none() {
                return Gesture::Pan;
            }
        }
        Gesture::Rect
    }

    /// Decides what a fresh drag does, from what is under the press position: a transform where the
    /// selection is grabbed, else what a drag on empty space does.
    pub fn begin_gesture(&self, masks: &MaskImage, press: Option<(HoverPart, (u32, u32))>) -> (gesture:
        Option<Gesture>)
        requires
            masks.wf(),
        ensures
            gesture == begun_gesture(
                self.selection is Some,
                self.pan_on_drag,
                masks@.stack(),
                press,
            ),
            gesture is None <==> press is None,
            gesture == Some(Gesture::Transform) <==> self.selection is Some && (press matches Some(
                (part, _),
            ) && (part is Inside || part is Anchor || part is Rotate)),
    {
        match press {
            None => None,
            Some((part, pixel)) => if self.selection.is_some() && part != HoverPart::Outside {
                Some(Gesture::Transform)
            } else {
                Some(self.start_empty_space_gesture(masks, pixel))
            },
        }
    }

    /// No gesture running: a drag start begins one, a click (Shift adds) selects the cluster under
    /// the pointer.
    pub fn step_idle(&mut self, masks: &MaskImage, event: IdleEvent) -> (change: SelectionChange)
        requires
            masks.wf(),
        ensures
            final(self).same_settings(old(self)),
            final(self).gesture == if event.drag_started {
                begun_gesture(
                    old(self).selection is Some,
                    old(self).pan_on_drag,
                    masks@.stack(),
                    event.press,
                )
            } else {
                None
            },
            ({
                let stack = masks@.stack();
                let before = selection_model(old(self).selection);
                let after = selection_model(final(self).selection);
                &&& match event.pointer {
                    Some((x, y)) if event.clicked && !event.drag_stopped => match topmost_affected(
                        stack,
                        old(self).layer,
                        x as int,
                        y as int,
                        stack.len() as int,
                    ) {
                        None => if event.shift {
                            after == before && change is Kept
                        } else {
                            after is None && change is Dropped
                        },
                        Some(i) => if event.shift && is_selected_at(
                            before,
                            i,
                            x as int,
                            y as int,
                        ) {
                            after == before && change is Kept
                        } else {
                            let parts = clicked_part(stack, i, x as int, y as int);
                            selected_into(
                                before,
                                event.shift,
                                parts,
                                last_applied(masks@.history),
                                after,
                            ) && tells_change(change, before, event.shift, parts)
                        },
                    },
                    _ => after == before && change is Kept,
                }
                &&& in_step(before, stack) ==> in_step(after, stack)
            }),
    {
        let gesture: Option<Gesture> = if event.drag_started {
            self.begin_gesture(masks, event.press)
        } else {
            None
        };
        let change = match event.pointer {
            Some((x, y)) if event.clicked && !event.drag_stopped => self.click_select(
                masks,
                x,
                y,
                event.shift,
            ),
            _ => SelectionChange::Kept,
        };
        self.gesture = gesture;
        change
    }

    /// Cursor for a gesture that just began, or for the part of the selection overlay that the
    /// pointer is over.
    pub fn hover_cursor(&self, hovered: Option<HoverPart>) -> (cursor: Option<HoverCursor>)
        ensures
            cursor == (match (self.gesture, self.selection is Some) {
                (Some(Gesture::Transform), true) => Some(HoverCursor::Transform),
                (Some(Gesture::Transform), false) => None,
                (Some(Gesture::Pan), _) => Some(HoverCursor::AllScroll),
                (Some(Gesture::Rect), _) => Some(HoverCursor::Crosshair),
                (None, true) => match hovered {
                    Some(HoverPart::Inside) => Some(HoverCursor::Move),
                    Some(HoverPart::Anchor(anchor)) => Some(HoverCursor::Resize(anchor)),
                    Some(HoverPart::Rotate) => Some(HoverCursor::Grab),
                    Some(HoverPart::Outside) => None,
                    None => None,
                },
                (None, false) => None,
            }),
    {
        match self.gesture {
            Some(Gesture::Transform) => if self.selection.is_some() {
                Some(HoverCursor::Transform)
            } else {
                None
            },
            Some(Gesture::Pan) => Some(HoverCursor::AllScroll),
            Some(Gesture::Rect) => Some(HoverCursor::Crosshair),
            None => if self.selection.is_some() {
                match hovered {
                    Some(HoverPart::Inside) => Some(HoverCursor::Move),
                    Some(HoverPart::Anchor(anchor)) => Some(HoverCursor::Resize(anchor)),
                    Some(HoverPart::Rotate) => Some(HoverCursor::Grab),
                    Some(HoverPart::Outside) => None,
                    None => None,
                }
            } else {
                None
            },
        }
    }
}

/// What a drag on empty space does.
pub open spec fn empty_space_gesture(
    pan_on_drag: bool,
    stack: Seq<LayerModel>,
    x: int,
    y: int,
) -> Gesture {
    if pan_on_drag && forall|i: int|
        0 <= i < stack.len() ==> !(#[trigger] stack[i]).pixels.contains((x, y)) {
        Gesture::Pan
    } else {
        Gesture::Rect
    }
}

/// What a fresh drag does.
pub open spec fn begun_gesture(
    has_selection: bool,
    pan_on_drag: bool,
    stack: Seq<LayerModel>,
    press: Option<(HoverPart, (u32, u32))>,
) -> Option<Gesture> {
    match press {
        None => None,
        Some((part, pixel)) => if has_selection && part != HoverPart::Outside {
            Some(Gesture::Transform)
        } else {
            Some(empty_space_gesture(pan_on_drag, stack, pixel.0 as int, pixel.1 as int))
        },
    }
}

/// Adding pixels to a selection a second time changes nothing of what is selected.
pub proof fn adding_again_changes_nothing(part: PartModel, ranges: Set<(int, int)>)
    ensures
        part.merged(ranges).merged(ranges) == part.merged(ranges),
{
    let once = part.merged(ranges);
    assert(once.merged(ranges).original =~= once.original);
    assert(once.merged(ranges).committed =~= once.committed);
    assert(once.merged(ranges).background =~= once.background);
}

/// The layer that a click selects from is an affected one that has the pixel, and no affected layer
/// above it has the pixel; where the click finds none, no affected layer has it.
pub proof fn click_finds_the_topmost_layer(
    stack: Seq<LayerModel>,
    affected: AffectedLayer,
    x: int,
    y: int,
    n: int,
)
    requires
        0 <= n <= stack.len(),
    ensures
        match topmost_affected(stack, affected, x, y, n) {
            Some(i) => {
                &&& 0 <= i < n
                &&& affected.affects_layer(i)
                &&& stack[i].pixels.contains((x, y))
                &&& forall|j: int|
                    i < j < n && affected.affects_layer(j) ==> !(
                    #[trigger] stack[j]).pixels.contains((x, y))
            },
            None => forall|j: int|
                0 <= j < n && affected.affects_layer(j) ==> !(#[trigger] stack[j]).pixels.contains(
                    (x, y),
                ),
        },
    decreases n,
{
    if n > 0 {
        click_finds_the_topmost_layer(stack, affected, x, y, n - 1);
    }
}

/// What a drag begins. On the inside of the selection box, on any of its anchors or on its rotate
/// handle it is a transform. Outside of the box, and where nothing is selected, it never is: there
/// the view moves where the tool is set up so and no layer has the pixel, else a rectangle is drawn.
pub proof fn drags_begin_what_they_grab(
    has_selection: bool,
    pan_on_drag: bool,
    stack: Seq<LayerModel>,
    anchor: Anchor,
    part: HoverPart,
    pixel: (u32, u32),
)
    ensures
        begun_gesture(has_selection, pan_on_drag, stack, None) is None,
        begun_gesture(true, pan_on_drag, stack, Some((HoverPart::Inside, pixel))) == Some(
            Gesture::Transform,
        ),
        begun_gesture(true, pan_on_drag, stack, Some((HoverPart::Anchor(anchor), pixel))) == Some(
            Gesture::Transform,
        ),
        begun_gesture(true, pan_on_drag, stack, Some((HoverPart::Rotate, pixel))) == Some(
            Gesture::Transform,
        ),
        ({
            let outside = begun_gesture(
                has_selection,
                pan_on_drag,
                stack,
                Some((HoverPart::Outside, pixel)),
            );
            let unselected = begun_gesture(false, pan_on_drag, stack, Some((part, pixel)));
            let empty = forall|i: int|
                0 <= i < stack.len() ==> !(#[trigger] stack[i]).pixels.contains(
                    (pixel.0 as int, pixel.1 as int),
                );
            &&& pan_on_drag && empty ==> outside == Some(Gesture::Pan) && unselected == Some(
                Gesture::Pan,
            )
            &&& !(pan_on_drag && empty) ==> outside == Some(Gesture::Rect) && unselected == Some(
                Gesture::Rect,
            )
        }),
{
}

/// Whether the selection has placed the pixel on the layer is whether one of its parts has.
pub proof fn selected_pixels_are_of_a_part(selection: SelectionModel, layer: int, x: int, y: int)
    requires
        layers_increase(selection.parts),
    ensures
        is_selected_at(Some(selection), layer, x, y) <==> exists|k: int|
            #![trigger selection.parts[k]]
            0 <= k < selection.parts.len() && selection.parts[k].0 == layer
                && selection.parts[k].1.committed.contains((x, y)),
        !is_selected_at(None, layer, x, y),
{
    let parts = selection.parts;
    if is_selected_at(Some(selection), layer, x, y) {
        let k = choose|k: int| 0 <= k < parts.len() && (#[trigger] parts[k]).0 == layer;
        crate::selection::lemma_part_at(parts, k);
        assert(parts[k].1.committed.contains((x, y)));
    }
    if exists|k: int|
        #![trigger parts[k]]
        0 <= k < parts.len() && parts[k].0 == layer && parts[k].1.committed.contains((x, y)) {
        let k = choose|k: int|
            #![trigger parts[k]]
            0 <= k < parts.len() && parts[k].0 == layer && parts[k].1.committed.contains((x, y));
        crate::selection::lemma_part_at(parts, k);
    }
}

proof fn lemma_merged_pixels(
    before: Option<PartModel>,
    parts: Seq<(int, Set<(int, int)>, Set<(int, int)>)>,
    n: int,
    layer: int,
    p: (int, int),
)
    requires
        0 <= n <= parts.len(),
        before matches Some(part) ==> part.original == part.committed,
    ensures
        ({
            let after = merged_part(before, parts, n, layer);
            let added = exists|k: int|
                0 <= k < n && (#[trigger] parts[k]).0 == layer && parts[k].1.contains(p);
            &&& after matches Some(part) ==> part.original == part.committed
            &&& (after matches Some(part) && part.committed.contains(p)) <==> added || (
            before matches Some(part) && part.committed.contains(p))
            &&& (after matches Some(part) && part.background.contains(p)) ==> (
            before matches Some(part) && part.background.contains(p)) || exists|k: int|
                0 <= k < n && (#[trigger] parts[k]).0 == layer && parts[k].2.contains(p)
        }),
    decreases n,
{
    if n > 0 {
        lemma_merged_pixels(before, parts, n - 1, layer, p);
        let earlier = merged_part(before, parts, n - 1, layer);
        let (at, ranges, background) = parts[n - 1];
        if at == layer {
            if ranges.contains(p) || background.contains(p) {
                assert(parts[n - 1].0 == layer);
            }
            if let Some(part) = earlier {
                let m = part.merged(ranges);
                assert(m.original =~= m.committed);
            }
        }
        if exists|k: int|
            0 <= k < n && (#[trigger] parts[k]).0 == layer && parts[k].1.contains(p) {
            let k = choose|k: int|
                0 <= k < n && (#[trigger] parts[k]).0 == layer && parts[k].1.contains(p);
            if k < n - 1 {
                assert(exists|j: int|
                    0 <= j < n - 1 && (#[trigger] parts[j]).0 == layer && parts[j].1.contains(p));
            }
        }
    }
}

/// What is selected afterwards. A pixel of a layer is selected where one of the new parts has it, or,
/// where the parts are added to a selection, where that had placed it. All that is selected is
/// selected where it is: the next transform starts from the placed pixels. And the selection knows of
/// the last action in history.
pub proof fn selecting_selects_the_parts(
    before: Option<SelectionModel>,
    additive: bool,
    parts: Seq<(int, Set<(int, int)>, Set<(int, int)>)>,
    tip: Option<ActionModel>,
    after: Option<SelectionModel>,
    layer: int,
    p: (int, int),
)
    requires
        selected_into(before, additive, parts, tip, after),
        selected_increase(parts),
        before matches Some(b) ==> layers_increase(b.parts),
    ensures
        parts.len() == 0 ==> after is None,
        parts.len() > 0 ==> {
            &&& after matches Some(a)
            &&& a.tip == tip
            &&& forall|k: int|
                0 <= k < a.parts.len() ==> (#[trigger] a.parts[k]).1.original
                    == a.parts[k].1.committed
            &&& (exists|k: int|
                #![trigger a.parts[k]]
                0 <= k < a.parts.len() && a.parts[k].0 == layer && a.parts[k].1.committed.contains(
                    p,
                )) <==> {
                ||| exists|k: int|
                    #![trigger parts[k]]
                    0 <= k < parts.len() && parts[k].0 == layer && parts[k].1.contains(p)
                ||| additive && before is Some && exists|k: int|
                    #![trigger before->0.parts[k]]
                    0 <= k < before->0.parts.len() && before->0.parts[k].0 == layer
                        && before->0.parts[k].1.committed.contains(p)
            }
        },
{
    if parts.len() > 0 {
        let a = after->0;
        if additive && before is Some {
            let b = before->0.parts;
            let rebased = rebased_parts(b);
            assert forall|i: int, j: int| 0 <= i < j < rebased.len() implies rebased[i].0
                < rebased[j].0 by {
                assert(b[i].0 < b[j].0);
            }
            assert forall|k: int| 0 <= k < a.parts.len() implies (#[trigger] a.parts[k]).1.original
                == a.parts[k].1.committed by {
                crate::selection::lemma_part_at(a.parts, k);
                let m = part_of(rebased, a.parts[k].0);
                lemma_rebased_part(b, a.parts[k].0);
                lemma_merged_pixels(m, parts, parts.len() as int, a.parts[k].0, p);
            }
            let m = part_of(rebased, layer);
            lemma_rebased_part(b, layer);
            lemma_merged_pixels(m, parts, parts.len() as int, layer, p);
            selected_pixels_are_of_a_part(a, layer, p.0, p.1);
            selected_pixels_are_of_a_part(before->0, layer, p.0, p.1);
            assert(part_of(a.parts, layer) == merged_part(m, parts, parts.len() as int, layer));
        } else {
            let fresh = fresh_parts(parts);
            assert forall|k: int| 0 <= k < a.parts.len() implies (#[trigger] a.parts[k]).1.original
                == a.parts[k].1.committed by {}
            assert forall|k: int| 0 <= k < parts.len() implies (#[trigger] fresh[k]).0 == parts[k].0
                && fresh[k].1.committed == parts[k].1 by {}
            if exists|k: int|
                #![trigger parts[k]]
                0 <= k < parts.len() && parts[k].0 == layer && parts[k].1.contains(p) {
                let k = choose|k: int|
                    #![trigger parts[k]]
                    0 <= k < parts.len() && parts[k].0 == layer && parts[k].1.contains(p);
                assert(a.parts[k].0 == layer && a.parts[k].1.committed.contains(p));
            }
        }
    }
}

proof fn lemma_rebased_part(parts: Seq<(int, PartModel)>, layer: int)
    requires
        layers_increase(parts),
    ensures
        part_of(rebased_parts(parts), layer) matches Some(r) ==> r.original == r.committed,
        part_of(rebased_parts(parts), layer) is Some <==> part_of(parts, layer) is Some,
        part_of(rebased_parts(parts), layer) matches Some(r) ==> (part_of(parts, layer) matches Some(
            q,
        ) && r.committed == q.committed),
{
    let rebased = rebased_parts(parts);
    assert forall|i: int, j: int| 0 <= i < j < rebased.len() implies rebased[i].0
        < rebased[j].0 by {
        assert(parts[i].0 < parts[j].0);
    }
    if part_of(rebased, layer) is Some {
        let k = choose|k: int| 0 <= k < rebased.len() && (#[trigger] rebased[k]).0 == layer;
        crate::selection::lemma_part_at(rebased, k);
        assert(parts[k].0 == layer);
        crate::selection::lemma_part_at(parts, k);
    }
    if part_of(parts, layer) is Some {
        let k = choose|k: int| 0 <= k < parts.len() && (#[trigger] parts[k]).0 == layer;
        assert(rebased[k].0 == layer);
    }
}

/// A rectangle takes from each affected layer the pixels inside it, and whole layers are taken with
/// all their pixels; from other layers nothing is taken. What is not taken of a layer is its
/// background.
pub proof fn rectangles_take_what_is_inside(
    stack: Seq<LayerModel>,
    affected: AffectedLayer,
    roi: Roi,
    n: int,
    layer: int,
    p: (int, int),
)
    requires
        0 <= n <= stack.len() <= usize::MAX,
    ensures
        ({
            let parts = picked_parts(stack, affected, inside(roi), n);
            (exists|k: int|
                #![trigger parts[k]]
                0 <= k < parts.len() && parts[k].0 == layer && parts[k].1.contains(p)) <==> {
                &&& 0 <= layer < n
                &&& affected.affects_layer(layer)
                &&& stack[layer].pixels.contains(p)
                &&& roi.x_start <= p.0 < roi.x_end
                &&& roi.y_start <= p.1 < roi.y_end
            }
        }),
        ({
            let parts = picked_parts(stack, affected, whole(), n);
            (exists|k: int|
                #![trigger parts[k]]
                0 <= k < parts.len() && parts[k].0 == layer && parts[k].1.contains(p)) <==> {
                &&& 0 <= layer < n
                &&& affected.affects_layer(layer)
                &&& stack[layer].pixels.contains(p)
            }
        }),
        ({
            let parts = picked_parts(stack, affected, inside(roi), n);
            forall|k: int|
                #![trigger parts[k]]
                0 <= k < parts.len() ==> parts[k].1 != Set::<(int, int)>::empty() && parts[k].2
                    == stack[parts[k].0].pixels.difference(parts[k].1)
        }),
        ({
            let parts = picked_parts(stack, affected, whole(), n);
            forall|k: int|
                #![trigger parts[k]]
                0 <= k < parts.len() ==> parts[k].1 != Set::<(int, int)>::empty() && parts[k].2
                    == Set::<(int, int)>::empty()
        }),
{
    lemma_picked_pixels(stack, affected, inside(roi), n, layer, p);
    lemma_picked_pixels(stack, affected, whole(), n, layer, p);
    assert forall|s: Set<(int, int)>| s.difference(s) == Set::<(int, int)>::empty() by {
        assert(s.difference(s) =~= Set::empty());
    }
}

proof fn lemma_picked_pixels(
    stack: Seq<LayerModel>,
    affected: AffectedLayer,
    pick: spec_fn(Set<(int, int)>) -> Set<(int, int)>,
    n: int,
    layer: int,
    p: (int, int),
)
    requires
        0 <= n <= stack.len() <= usize::MAX,
    ensures
        ({
            let parts = picked_parts(stack, affected, pick, n);
            &&& (exists|k: int|
                #![trigger parts[k]]
                0 <= k < parts.len() && parts[k].0 == layer && parts[k].1.contains(p)) <==> 0
                <= layer < n && affected.affects_layer(layer) && pick(stack[layer].pixels).contains(
                p,
            )
            &&& forall|k: int|
                #![trigger parts[k]]
                0 <= k < parts.len() ==> 0 <= parts[k].0 < n && parts[k].1 == pick(
                    stack[parts[k].0].pixels,
                ) && parts[k].1 != Set::<(int, int)>::empty() && parts[k].2
                    == stack[parts[k].0].pixels.difference(parts[k].1)
        }),
    decreases n,
{
    if n > 0 {
        lemma_picked_pixels(stack, affected, pick, n - 1, layer, p);
        let lower = picked_parts(stack, affected, pick, n - 1);
        let all = picked_parts(stack, affected, pick, n);
        let pixels = stack[n - 1].pixels;
        if affected.affects_layer(n - 1) && pick(pixels) != Set::<(int, int)>::empty() {
            assert(all == lower.push((n - 1, pick(pixels), pixels.difference(pick(pixels)))));
            assert forall|k: int| #![trigger all[k]] 0 <= k < all.len() implies 0 <= all[k].0 < n
                && all[k].1 == pick(stack[all[k].0].pixels) && all[k].1 != Set::<
                (int, int),
            >::empty() && all[k].2 == stack[all[k].0].pixels.difference(all[k].1) by {
                if k < lower.len() {
                    assert(all[k] == lower[k]);
                }
            }
            if exists|k: int|
                #![trigger lower[k]]
                0 <= k < lower.len() && lower[k].0 == layer && lower[k].1.contains(p) {
                let k = choose|k: int|
                    #![trigger lower[k]]
                    0 <= k < lower.len() && lower[k].0 == layer && lower[k].1.contains(p);
                assert(all[k] == lower[k]);
            }
            if layer == n - 1 && pick(pixels).contains(p) {
                assert(all[lower.len() as int].0 == layer);
            }
        }
    }
}

/// A click takes, of the layer it is for, the pixels that hang together with the clicked one, and
/// leaves the others as background.
pub proof fn clicks_take_what_hangs_together(
    stack: Seq<LayerModel>,
    layer: int,
    x: int,
    y: int,
    p: (int, int),
    q: (int, int),
)
    requires
        0 <= layer < stack.len(),
        stack[layer].pixels.contains((x, y)),
    ensures
        ({
            let parts = clicked_part(stack, layer, x, y);
            let pixels = stack[layer].pixels;
            &&& parts.len() == 1
            &&& parts[0].0 == layer
            &&& parts[0].1.contains((x, y))
            &&& parts[0].1.contains(p) ==> pixels.contains(p)
            &&& parts[0].1.contains(p) && pixels.contains(q) && p.0 - 1 <= q.0 <= p.0 + 1 && p.1 - 1
                <= q.1 <= p.1 + 1 ==> parts[0].1.contains(q)
            &&& parts[0].2.contains(p) <==> pixels.contains(p) && !parts[0].1.contains(p)
        }),
{
    let pixels = stack[layer].pixels;
    crate::cluster::cluster_is_closed_and_smallest(pixels, (x, y), pixels);
    assert(cluster(pixels, (x, y)).contains(p) == cluster(pixels, (x, y)).contains((p.0, p.1)));
    assert(pixels.contains(q) == pixels.contains((q.0, q.1)));
}

/// What is told of a selection that was made: where nothing was selected it is gone, an addition comes
/// with the bounds of each part that was added, and a fresh selection with the bounds of all of it.
pub proof fn changes_tell_the_bounds(
    change: SelectionChange,
    before: Option<SelectionModel>,
    additive: bool,
    parts: Seq<(int, Set<(int, int)>, Set<(int, int)>)>,
    k: int,
    p: (int, int),
)
    requires
        tells_change(change, before, additive, parts),
    ensures
        parts.len() == 0 ==> change is Dropped,
        parts.len() > 0 && additive && before is Some ==> {
            &&& change matches SelectionChange::Extended(rois)
            &&& rois@.len() == parts.len()
            &&& 0 <= k < parts.len() ==> rois@[k].hugs(parts[k].1)
        },
        parts.len() > 0 && !(additive && before is Some) ==> {
            &&& change matches SelectionChange::Fresh(roi)
            &&& 0 <= k < parts.len() && parts[k].1.contains(p) ==> roi.x_start <= p.0 < roi.x_end
                && roi.y_start <= p.1 < roi.y_end
            &&& exists|q: (int, int), j: int|
                #![trigger parts[j].1.contains(q)]
                0 <= j < parts.len() && parts[j].1.contains(q) && q.0 == roi.x_start
            &&& exists|q: (int, int), j: int|
                #![trigger parts[j].1.contains(q)]
                0 <= j < parts.len() && parts[j].1.contains(q) && q.0 + 1 == roi.x_end
            &&& exists|q: (int, int), j: int|
                #![trigger parts[j].1.contains(q)]
                0 <= j < parts.len() && parts[j].1.contains(q) && q.1 == roi.y_start
            &&& exists|q: (int, int), j: int|
                #![trigger parts[j].1.contains(q)]
                0 <= j < parts.len() && parts[j].1.contains(q) && q.1 + 1 == roi.y_end
        },
{
    if parts.len() > 0 && !(additive && before is Some) {
        let roi = change->Fresh_0;
        let all = all_selected(parts, parts.len() as int);
        assert forall|q: (int, int)| all.contains(q) == exists|j: int|
            0 <= j < parts.len() && (#[trigger] parts[j]).1.contains(q) by {
            lemma_all_selected(parts, parts.len() as int, q);
        }
        if 0 <= k < parts.len() && parts[k].1.contains(p) {
            assert(all.contains(p));
            assert(roi.area().contains(p));
        }
        let y0 = choose|y: int| all.contains((roi.x_start as int, y));
        let j0 = choose|j: int|
            0 <= j < parts.len() && (#[trigger] parts[j]).1.contains((roi.x_start as int, y0));
        assert(parts[j0].1.contains((roi.x_start as int, y0)));
        assert(crate::ranges::touches_column(all, roi.x_end - 1));
        let y1 = choose|y: int| #[trigger] all.contains((roi.x_end - 1, y));
        let j1 = choose|j: int|
            0 <= j < parts.len() && (#[trigger] parts[j]).1.contains((roi.x_end - 1, y1));
        assert(parts[j1].1.contains((roi.x_end - 1, y1)));
        let x0 = choose|x: int| all.contains((x, roi.y_start as int));
        let j2 = choose|j: int|
            0 <= j < parts.len() && (#[trigger] parts[j]).1.contains((x0, roi.y_start as int));
        assert(parts[j2].1.contains((x0, roi.y_start as int)));
        assert(crate::ranges::touches_row(all, roi.y_end - 1));
        let x1 = choose|x: int| #[trigger] all.contains((x, roi.y_end - 1));
        let j3 = choose|j: int|
            0 <= j < parts.len() && (#[trigger] parts[j]).1.contains((x1, roi.y_end - 1));
        assert(parts[j3].1.contains((x1, roi.y_end - 1)));
    }
}

proof fn lemma_all_selected(
    parts: Seq<(int, Set<(int, int)>, Set<(int, int)>)>,
    n: int,
    q: (int, int),
)
    requires
        0 <= n <= parts.len(),
    ensures
        all_selected(parts, n).contains(q) == exists|j: int|
            0 <= j < n && (#[trigger] parts[j]).1.contains(q),
    decreases n,
{
    if n > 0 {
        lemma_all_selected(parts, n - 1, q);
        if all_selected(parts, n).contains(q) && !all_selected(parts, n - 1).contains(q) {
            assert(parts[n - 1].1.contains(q));
        }
    }
}

/// A commit drops the selection where no part has a pixel left in the image, and only then. A
/// selection that stays knows of the last action in history, unless the commit changed nothing.
pub proof fn commits_keep_what_is_visible(
    mask: MaskModel,
    selection: SelectionModel,
    new: Seq<Option<SortedRanges>>,
)
    requires
        new.len() == selection.parts.len(),
    ensures
        kept_selection(mask, selection, new) is None <==> forall|k: int|
            0 <= k < new.len() ==> #[trigger] new[k] is None,
        kept_selection(mask, selection, new) matches Some(after) ==> {
            &&& after.parts.len() == selection.parts.len()
            &&& forall|k: int|
                0 <= k < new.len() ==> {
                    &&& (#[trigger] after.parts[k]).0 == selection.parts[k].0
                    &&& after.parts[k].1.original == selection.parts[k].1.original
                    &&& after.parts[k].1.background == selection.parts[k].1.background
                    &&& after.parts[k].1.committed == (match new[k] {
                        Some(r) => r@,
                        None => Set::empty(),
                    })
                }
            &&& after.tip == selection.tip || ({
                let applied = after_commit(mask, selection.parts, region_models(new)).history
                    .applied();
                after.tip == if applied.len() > 0 {
                    Some(applied.last())
                } else {
                    None
                }
            })
        },
{
    let regions = region_models(new);
    if let Some(after) = kept_selection(mask, selection, new) {
        assert forall|k: int| 0 <= k < new.len() implies {
            &&& (#[trigger] after.parts[k]).0 == selection.parts[k].0
            &&& after.parts[k].1.original == selection.parts[k].1.original
            &&& after.parts[k].1.background == selection.parts[k].1.background
            &&& after.parts[k].1.committed == (match new[k] {
                Some(r) => r@,
                None => Set::empty(),
            })
        } by {
            assert(regions[k] == crate::selection::pixels_of(new[k]));
            if crate::commit::all_in_place(selection.parts, regions) {
                assert(regions[k] == selection.parts[k].1.committed);
            }
        }
    }
}

/// After a commit that wrote something, the selection is not stale, and before any other change of
/// the mask it stays so.
pub proof fn committed_selections_are_not_stale(
    mask: MaskModel,
    selection: SelectionModel,
    new: Seq<Set<(int, int)>>,
)
    requires
        mask.history.wf(),
        new.len() == selection.parts.len(),
        selection.tip == last_applied(mask.history),
    ensures
        committed_selection(mask, selection, new).tip == last_applied(
            after_commit(mask, selection.parts, new).history,
        ),
        ({
            let applied = mask.history.applied();
            last_applied(mask.history) == if applied.len() > 0 {
                Some(applied.last())
            } else {
                None
            }
        }),
        (forall|k: int|
            0 <= k < new.len() ==> #[trigger] new[k] == selection.parts[k].1.committed)
            <==> after_commit(mask, selection.parts, new) == mask,
{
    if !crate::commit::all_in_place(selection.parts, new) {
        crate::commit::undo_reverts_commit(mask, selection.parts, new);
        crate::commit::commit_writes_history(mask, selection.parts, new);
    }
}

/// Tools have the same settings where they select from the same layers and do the same with a drag on
/// empty space.
pub proof fn settings_are_layers_and_drag(a: DragTool, b: DragTool)
    ensures
        a.same_settings(&b) <==> a.layer == b.layer && a.pan_on_drag == b.pan_on_drag,
{
}

} // verus!
