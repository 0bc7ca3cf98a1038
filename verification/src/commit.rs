//! Writing a transformed selection into the mask.
//!
//! A commit clears what the last commit placed, adds the transformed pixels and adds back the
//! pixels of the layer that were hidden under the cleared ones. All of that is one undo group.
use crate::affected_layer::AffectedLayer;
use crate::history::{
    action_models, after_action, replay, undo_reverts_group, ActionModel, HistoryAction,
    HistoryActionAdd, HistoryActionClear, HistoryActionKind, HistoryModel, KindModel,
};
use crate::mask::{MaskImage, MaskModel};
use crate::pixel_area::{lemma_filled, LayerModel};
use crate::ranges::SortedRanges;
use crate::selection::{
    has_layer, last_applied, layers_increase, pixels_of, ActiveSelectionLogic, PartModel,
    SelectionModel,
};
use vstd::prelude::*;

verus! {

impl MaskModel {
    /// The mask after several edits, in order.
    pub open spec fn after_edits(self, actions: Seq<ActionModel>) -> MaskModel
        decreases actions.len(),
    {
        if actions.len() == 0 {
            self
        } else {
            self.after_edits(actions.drop_last()).after_edit(actions.last())
        }
    }
}

/// The actions as one undo group: the first is tracked.
pub open spec fn grouped(actions: Seq<ActionModel>) -> Seq<ActionModel> {
    if actions.len() == 0 {
        actions
    } else {
        actions.update(0, ActionModel { is_tracked: true, ..actions[0] })
    }
}

pub open spec fn untracked(kind: KindModel, layer: int) -> ActionModel {
    ActionModel { kind, layer: AffectedLayer::Layer(layer as usize), is_tracked: false }
}

/// Adds the pixels back that are hidden under the part, where there are any.
pub open spec fn restore_actions(layer: int, part: PartModel) -> Seq<ActionModel> {
    if part.covered_background() == Set::<(int, int)>::empty() {
        Seq::empty()
    } else {
        seq![untracked(KindModel::Add(part.covered_background()), layer)]
    }
}

/// Clears what was placed, where something was.
pub open spec fn clear_actions(layer: int, part: PartModel) -> Seq<ActionModel> {
    if part.committed == Set::<(int, int)>::empty() {
        Seq::empty()
    } else {
        seq![untracked(KindModel::Clear(part.committed), layer)]
    }
}

/// Adds what is placed anew, where something of it is in the image.
pub open spec fn add_actions(layer: int, new: Set<(int, int)>) -> Seq<ActionModel> {
    if new == Set::<(int, int)>::empty() {
        Seq::empty()
    } else {
        seq![untracked(KindModel::Add(new), layer)]
    }
}

/// Clears what was placed, adds what is placed anew, and adds back what was hidden.
pub open spec fn place_actions(layer: int, part: PartModel, new: Set<(int, int)>) -> Seq<
    ActionModel,
> {
    clear_actions(layer, part) + add_actions(layer, new) + restore_actions(layer, part)
}

/// The actions that place the first `n` parts.
pub open spec fn commit_actions(
    parts: Seq<(int, PartModel)>,
    new: Seq<Set<(int, int)>>,
    n: int,
) -> Seq<ActionModel>
    decreases n,
{
    if n <= 0 {
        Seq::empty()
    } else {
        commit_actions(parts, new, n - 1) + place_actions(parts[n - 1].0, parts[n - 1].1, new[n - 1])
    }
}

/// Whether every part is already where it is to be placed.
pub open spec fn all_in_place(parts: Seq<(int, PartModel)>, new: Seq<Set<(int, int)>>) -> bool {
    forall|k: int| 0 <= k < parts.len() ==> #[trigger] new[k] == parts[k].1.committed
}

/// The parts after they were placed.
pub open spec fn placed_parts(
    parts: Seq<(int, PartModel)>,
    new: Seq<Set<(int, int)>>,
) -> Seq<(int, PartModel)> {
    Seq::new(parts.len(), |k: int| (parts[k].0, parts[k].1.placed(new[k])))
}

/// The mask after the parts were placed: one undo group, or nothing where they are in place.
pub open spec fn after_commit(
    mask: MaskModel,
    parts: Seq<(int, PartModel)>,
    new: Seq<Set<(int, int)>>,
) -> MaskModel {
    if all_in_place(parts, new) {
        mask
    } else {
        mask.after_edits(grouped(commit_actions(parts, new, new.len() as int)))
    }
}

/// The selection after its parts were placed.
pub open spec fn committed_selection(
    mask: MaskModel,
    selection: SelectionModel,
    new: Seq<Set<(int, int)>>,
) -> SelectionModel {
    if all_in_place(selection.parts, new) {
        selection
    } else {
        SelectionModel {
            parts: placed_parts(selection.parts, new),
            tip: last_applied(after_commit(mask, selection.parts, new).history),
        }
    }
}

/// No place for any of `n` parts.
pub open spec fn nowhere(n: nat) -> Seq<Set<(int, int)>> {
    Seq::new(n, |k: int| Set::empty())
}

/// The mask after the parts were deleted, which is to place them nowhere, in one undo group.
pub open spec fn after_delete(mask: MaskModel, parts: Seq<(int, PartModel)>) -> MaskModel {
    mask.after_edits(grouped(commit_actions(parts, nowhere(parts.len()), parts.len() as int)))
}

/// The pixels of each region, none where there is no region.
pub open spec fn region_models(regions: Seq<Option<SortedRanges>>) -> Seq<Set<(int, int)>> {
    regions.map_values(|r: Option<SortedRanges>| pixels_of(r))
}

fn build_add_untracked(layer: usize, pixel_area: SortedRanges) -> (action: HistoryAction)
    ensures
        action@ == untracked(KindModel::Add(pixel_area@), layer as int),
{
    HistoryAction {
        kind: HistoryActionKind::Add(HistoryActionAdd { pixel_area }),
        layer: AffectedLayer::Layer(layer),
        is_tracked: false,
    }
}

fn build_clear_untracked(layer: usize, ranges: SortedRanges) -> (action: HistoryAction)
    ensures
        action@ == untracked(KindModel::Clear(ranges@), layer as int),
{
    HistoryAction {
        kind: HistoryActionKind::Clear(HistoryActionClear { ranges }),
        layer: AffectedLayer::Layer(layer),
        is_tracked: false,
    }
}

fn push_action(actions: &mut Vec<HistoryAction>, action: HistoryAction)
    ensures
        action_models(final(actions)@) == action_models(old(actions)@).push(action@),
{
    actions.push(action);
    assert(action_models(actions@) =~= action_models(old(actions)@).push(action@));
}

/// Does the edits as one undo group. Tells whether there was one.
fn add_history_actions(masks: &mut MaskImage, actions: Vec<HistoryAction>) -> (written: bool)
    requires
        old(masks).wf(),
    ensures
        final(masks).wf(),
        final(masks)@ == old(masks)@.after_edits(grouped(action_models(actions@))),
        written == (actions@.len() > 0),
{
    let ghost start = masks@;
    let ghost all = grouped(action_models(actions@));
    let mut k: usize = 0;
    assert(all.take(0) =~= Seq::empty());
    while k < actions.len()
        invariant
            k <= actions@.len(),
            all == grouped(action_models(actions@)),
            masks.wf(),
            masks@ == start.after_edits(all.take(k as int)),
        decreases actions@.len() - k,
    {
        let mut action = actions[k].clone();
        if k == 0 {
            action.is_tracked = true;
        }
        proof {
            assert(all[k as int] == action@);
            assert(all.take(k + 1).drop_last() =~= all.take(k as int));
        }
        masks.add_history_action(action);
        k += 1;
    }
    assert(all.take(k as int) =~= all);
    actions.len() > 0
}

impl ActiveSelectionLogic {
    /// Commits a transform, where `new` holds for each part the transformed pixels that are still
    /// in the image. Clears previously committed pixels, adds the new ones, and adds back what was
    /// hidden; the first action is tracked, the rest are not, so one undo reverts the whole gesture
    /// across all layers. A commit that changes nothing leaves history untouched.
    pub fn commit(self, masks: &mut MaskImage, new: Vec<Option<SortedRanges>>) -> (after: Option<
        ActiveSelectionLogic,
    >)
        requires
            old(masks).wf(),
            new@.len() == self@.parts.len(),
        ensures
            final(masks).wf(),
            final(masks)@ == after_commit(old(masks)@, self@.parts, region_models(new@)),
            final(masks)@ != old(masks)@ ==> final(masks)@.history.can_undo()
                && final(masks)@.after_undo_key(false).stack() == old(masks)@.stack(),
            layers_increase(self@.parts),
            after matches Some(a) && layers_increase(a@.parts) && a@ == committed_selection(
                old(masks)@,
                self@,
                region_models(new@),
            ),
    {
        proof {
            use_type_invariant(&self);
            changes_of_selections_can_be_undone(masks@, self@.parts, region_models(new@));
        }
        if self.in_place(&new) {
            return Some(self);
        }
        let actions = self.placing(&new);
        add_history_actions(masks, actions);
        let tip = masks.last_history_action();
        let ghost parts = self@.parts;
        let ghost regions = region_models(new@);
        let mut after = self;
        after.place(new, tip);
        proof {
            assert forall|k: int| 0 <= k < parts.len() implies after@.parts[k] == placed_parts(
                parts,
                regions,
            )[k] by {
                assert(regions[k] == pixels_of(new@[k]));
            }
            assert(after@.parts =~= placed_parts(parts, regions));
            use_type_invariant(&after);
        }
        Some(after)
    }

    /// Deletes the selected pixels: clears what is placed on every layer, and adds back what was
    /// hidden there. One undo reverts the whole deletion.
    pub fn delete_all(self, masks: &mut MaskImage)
        requires
            old(masks).wf(),
        ensures
            final(masks).wf(),
            final(masks)@ == after_delete(old(masks)@, self@.parts),
            final(masks)@ != old(masks)@ ==> final(masks)@.history.can_undo()
                && final(masks)@.after_undo_key(false).stack() == old(masks)@.stack(),
            layers_increase(self@.parts),
    {
        proof {
            use_type_invariant(&self);
            changes_of_selections_can_be_undone(masks@, self@.parts, Seq::empty());
        }
        let mut none: Vec<Option<SortedRanges>> = Vec::new();
        while none.len() < self.len()
            invariant
                none@.len() <= self@.parts.len(),
                forall|k: int| 0 <= k < none@.len() ==> #[trigger] none@[k] is None,
            decreases self@.parts.len() - none@.len(),
        {
            none.push(None);
        }
        assert(region_models(none@) =~= nowhere(self@.parts.len()));
        let actions = self.placing(&none);
        add_history_actions(masks, actions);
    }

    fn in_place(&self, new: &Vec<Option<SortedRanges>>) -> (same: bool)
        requires
            new@.len() == self@.parts.len(),
        ensures
            same == all_in_place(self@.parts, region_models(new@)),
    {
        let ghost regions = region_models(new@);
        let mut k: usize = 0;
        while k < new.len()
            invariant
                k <= new@.len(),
                new@.len() == self@.parts.len(),
                regions == region_models(new@),
                forall|j: int| 0 <= j < k ==> #[trigger] regions[j] == self@.parts[j].1.committed,
            decreases new@.len() - k,
        {
            let (_, part) = self.part(k);
            assert(regions[k as int] == pixels_of(new@[k as int]));
            if !same_pixels(&new[k], &part.committed) {
                return false;
            }
            k += 1;
        }
        true
    }

    fn placing(&self, new: &Vec<Option<SortedRanges>>) -> (actions: Vec<HistoryAction>)
        requires
            new@.len() == self@.parts.len(),
        ensures
            action_models(actions@) == commit_actions(
                self@.parts,
                region_models(new@),
                new@.len() as int,
            ),
    {
        let ghost regions = region_models(new@);
        let mut actions: Vec<HistoryAction> = Vec::new();
        let mut k: usize = 0;
        assert(action_models(actions@) =~= commit_actions(self@.parts, regions, 0));
        while k < new.len()
            invariant
                k <= new@.len(),
                new@.len() == self@.parts.len(),
                regions == region_models(new@),
                action_models(actions@) == commit_actions(self@.parts, regions, k as int),
            decreases new@.len() - k,
        {
            let (layer, part) = self.part(k);
            let ghost was = action_models(actions@);
            assert(regions[k as int] == pixels_of(new@[k as int]));
            if let Some(committed) = &part.committed {
                proof {
                    use_type_invariant(committed);
                    lemma_filled(*committed);
                }
                push_action(&mut actions, build_clear_untracked(layer, committed.clone()));
            }
            assert(action_models(actions@) =~= was + clear_actions(layer as int, part@));
            if let Some(region) = &new[k] {
                proof {
                    use_type_invariant(region);
                    lemma_filled(*region);
                }
                push_action(&mut actions, build_add_untracked(layer, region.clone()));
            }
            assert(action_models(actions@) =~= was + clear_actions(layer as int, part@)
                + add_actions(layer as int, regions[k as int]));
            if let Some(covered) = part.restore() {
                push_action(&mut actions, build_add_untracked(layer, covered));
            }
            assert(action_models(actions@) =~= was + place_actions(
                layer as int,
                part@,
                regions[k as int],
            ));
            k += 1;
        }
        actions
    }
}

/// Whether both hold the same pixels.
fn same_pixels(a: &Option<SortedRanges>, b: &Option<SortedRanges>) -> (same: bool)
    ensures
        same == (pixels_of(*a) == pixels_of(*b)),
{
    match (a, b) {
        (Some(x), Some(y)) => *x == *y,
        (None, None) => true,
        (Some(x), None) => {
            proof {
                use_type_invariant(x);
                lemma_filled(*x);
            }
            false
        },
        (None, Some(y)) => {
            proof {
                use_type_invariant(y);
                lemma_filled(*y);
            }
            false
        },
    }
}

/// Edits change nothing but the history, and ask for a new image.
proof fn lemma_after_edits(mask: MaskModel, actions: Seq<ActionModel>)
    ensures
        mask.after_edits(actions) == (MaskModel {
            history: mask.history.after_pushes(actions),
            redraw: mask.redraw || actions.len() > 0,
            ..mask
        }),
    decreases actions.len(),
{
    if actions.len() > 0 {
        lemma_after_edits(mask, actions.drop_last());
    }
}

/// Whether each part is on a layer that shows the part's pixels and, besides those, the part's
/// background and nothing else.
pub open spec fn selection_matches(parts: Seq<(int, PartModel)>, stack: Seq<LayerModel>) -> bool {
    &&& layers_increase(parts)
    &&& forall|k: int|
        0 <= k < parts.len() ==> {
            let (layer, part) = #[trigger] parts[k];
            &&& 0 <= layer < stack.len()
            &&& layer <= usize::MAX
            &&& stack[layer].pixels == part.committed.union(part.background)
        }
}

proof fn lemma_replay_concat(base: Seq<LayerModel>, a: Seq<ActionModel>, b: Seq<ActionModel>)
    ensures
        replay(base, a + b) == replay(replay(base, a), b),
    decreases b.len(),
{
    if b.len() == 0 {
        assert(a + b =~= a);
    } else {
        assert((a + b).drop_last() =~= a + b.drop_last());
        assert((a + b).last() == b.last());
        lemma_replay_concat(base, a, b.drop_last());
    }
}

/// Which actions start undo groups does not matter for what they do.
proof fn lemma_replay_grouped(base: Seq<LayerModel>, actions: Seq<ActionModel>)
    ensures
        replay(base, grouped(actions)) == replay(base, actions),
    decreases actions.len(),
{
    if actions.len() > 0 {
        let group = grouped(actions);
        if actions.len() == 1 {
            assert(group.drop_last() =~= actions.drop_last());
        } else {
            assert(group.drop_last() =~= grouped(actions.drop_last()));
            lemma_replay_grouped(base, actions.drop_last());
        }
    }
}

/// The layers after several edits are what the edits make of the layers before.
pub proof fn edits_apply_in_order(mask: MaskModel, actions: Seq<ActionModel>)
    requires
        mask.history.wf(),
    ensures
        mask.after_edits(actions).history.wf(),
        mask.after_edits(actions).stack() == replay(mask.stack(), actions),
    decreases actions.len(),
{
    if actions.len() > 0 {
        edits_apply_in_order(mask, actions.drop_last());
        let before = mask.after_edits(actions.drop_last());
        crate::history::push_applies_action(before.base, before.history, actions.last());
        assert(mask.after_edits(actions).base == before.base);
    }
}

/// What clearing and adding on one layer does to a stack.
proof fn lemma_layer_edit(stack: Seq<LayerModel>, layer: int, kind: KindModel)
    requires
        0 <= layer < stack.len(),
        layer <= usize::MAX,
        kind is Clear || kind is Add,
    ensures
        ({
            let after = after_action(stack, untracked(kind, layer));
            &&& after.len() == stack.len()
            &&& forall|j: int| 0 <= j < stack.len() && j != layer ==> #[trigger] after[j] == stack[j]
            &&& after[layer].color == stack[layer].color
            &&& kind matches KindModel::Clear(p) ==> after[layer].pixels
                == stack[layer].pixels.difference(p)
            &&& kind matches KindModel::Add(p) ==> after[layer].pixels
                == stack[layer].pixels.union(p)
        }),
{
}

proof fn lemma_replay_one(stack: Seq<LayerModel>, action: ActionModel)
    ensures
        replay(stack, seq![action]) == after_action(stack, action),
{
    assert(seq![action].drop_last() =~= Seq::empty());
    assert(replay(stack, Seq::<ActionModel>::empty()) == stack);
}

/// Adding the hidden pixels back.
proof fn lemma_restored(stack: Seq<LayerModel>, layer: int, part: PartModel)
    requires
        0 <= layer < stack.len(),
        layer <= usize::MAX,
    ensures
        ({
            let after = replay(stack, restore_actions(layer, part));
            &&& after.len() == stack.len()
            &&& forall|j: int| 0 <= j < stack.len() && j != layer ==> #[trigger] after[j] == stack[j]
            &&& after[layer].color == stack[layer].color
            &&& after[layer].pixels == stack[layer].pixels.union(part.covered_background())
        }),
{
    let covered = part.covered_background();
    if covered == Set::<(int, int)>::empty() {
        assert(stack[layer].pixels.union(covered) =~= stack[layer].pixels);
        assert(replay(stack, restore_actions(layer, part)) == stack);
    } else {
        lemma_replay_one(stack, untracked(KindModel::Add(covered), layer));
        lemma_layer_edit(stack, layer, KindModel::Add(covered));
    }
}

/// What is left of a layer after clearing a part and adding other pixels in its place.
spec fn placed_pixels(
    pixels: Set<(int, int)>,
    part: PartModel,
    new: Set<(int, int)>,
) -> Set<(int, int)> {
    pixels.difference(part.committed).union(new).union(part.covered_background())
}

proof fn lemma_cleared(stack: Seq<LayerModel>, layer: int, part: PartModel)
    requires
        0 <= layer < stack.len(),
        layer <= usize::MAX,
    ensures
        ({
            let after = replay(stack, clear_actions(layer, part));
            &&& after.len() == stack.len()
            &&& forall|j: int| 0 <= j < stack.len() && j != layer ==> #[trigger] after[j] == stack[j]
            &&& after[layer].color == stack[layer].color
            &&& after[layer].pixels == stack[layer].pixels.difference(part.committed)
        }),
{
    if part.committed == Set::<(int, int)>::empty() {
        assert(stack[layer].pixels.difference(part.committed) =~= stack[layer].pixels);
        assert(replay(stack, clear_actions(layer, part)) == stack);
    } else {
        lemma_replay_one(stack, untracked(KindModel::Clear(part.committed), layer));
        lemma_layer_edit(stack, layer, KindModel::Clear(part.committed));
    }
}

proof fn lemma_added(stack: Seq<LayerModel>, layer: int, new: Set<(int, int)>)
    requires
        0 <= layer < stack.len(),
        layer <= usize::MAX,
    ensures
        ({
            let after = replay(stack, add_actions(layer, new));
            &&& after.len() == stack.len()
            &&& forall|j: int| 0 <= j < stack.len() && j != layer ==> #[trigger] after[j] == stack[j]
            &&& after[layer].color == stack[layer].color
            &&& after[layer].pixels == stack[layer].pixels.union(new)
        }),
{
    if new == Set::<(int, int)>::empty() {
        assert(stack[layer].pixels.union(new) =~= stack[layer].pixels);
        assert(replay(stack, add_actions(layer, new)) == stack);
    } else {
        lemma_replay_one(stack, untracked(KindModel::Add(new), layer));
        lemma_layer_edit(stack, layer, KindModel::Add(new));
    }
}

proof fn lemma_placed(stack: Seq<LayerModel>, layer: int, part: PartModel, new: Set<(int, int)>)
    requires
        0 <= layer < stack.len(),
        layer <= usize::MAX,
    ensures
        ({
            let after = replay(stack, place_actions(layer, part, new));
            &&& after.len() == stack.len()
            &&& forall|j: int| 0 <= j < stack.len() && j != layer ==> #[trigger] after[j] == stack[j]
            &&& after[layer].color == stack[layer].color
            &&& after[layer].pixels == placed_pixels(stack[layer].pixels, part, new)
        }),
{
    let clear = clear_actions(layer, part);
    let add = add_actions(layer, new);
    let cleared = replay(stack, clear);
    let added = replay(cleared, add);
    lemma_cleared(stack, layer, part);
    lemma_added(cleared, layer, new);
    lemma_restored(added, layer, part);
    lemma_replay_concat(stack, clear, add);
    lemma_replay_concat(stack, clear + add, restore_actions(layer, part));
}

/// Whether layer `j` is the one of a part among the first `n`.
spec fn touched(parts: Seq<(int, PartModel)>, n: int, j: int) -> bool {
    exists|k: int| 0 <= k < n && (#[trigger] parts[k]).0 == j
}

/// Whether each part is on a layer of its own that is there.
pub open spec fn on_layers(parts: Seq<(int, PartModel)>, stack: Seq<LayerModel>) -> bool {
    &&& forall|j: int, k: int| 0 <= j < k < parts.len() ==> parts[j].0 < parts[k].0
    &&& forall|k: int|
        0 <= k < parts.len() ==> 0 <= (#[trigger] parts[k]).0 < stack.len() && parts[k].0
            <= usize::MAX
}

proof fn lemma_commit_stack(
    stack: Seq<LayerModel>,
    parts: Seq<(int, PartModel)>,
    new: Seq<Set<(int, int)>>,
    n: int,
)
    requires
        on_layers(parts, stack),
        0 <= n <= parts.len(),
        new.len() == parts.len(),
    ensures
        ({
            let after = replay(stack, commit_actions(parts, new, n));
            &&& after.len() == stack.len()
            &&& forall|j: int|
                0 <= j < stack.len() && !touched(parts, n, j) ==> #[trigger] after[j] == stack[j]
            &&& forall|k: int|
                0 <= k < n ==> after[(#[trigger] parts[k]).0] == (LayerModel {
                    color: stack[parts[k].0].color,
                    pixels: placed_pixels(stack[parts[k].0].pixels, parts[k].1, new[k]),
                })
        }),
    decreases n,
{
    if n > 0 {
        lemma_commit_stack(stack, parts, new, n - 1);
        let before = replay(stack, commit_actions(parts, new, n - 1));
        let (layer, part) = parts[n - 1];
        assert(0 <= parts[n - 1].0 < stack.len());
        assert(!touched(parts, n - 1, layer)) by {
            if touched(parts, n - 1, layer) {
                let k = choose|k: int| 0 <= k < n - 1 && (#[trigger] parts[k]).0 == layer;
                assert(parts[k].0 < parts[n - 1].0);
            }
        }
        assert(before[layer] == stack[layer]);
        lemma_placed(before, layer, part, new[n - 1]);
        lemma_replay_concat(
            stack,
            commit_actions(parts, new, n - 1),
            place_actions(layer, part, new[n - 1]),
        );
        let after = replay(stack, commit_actions(parts, new, n));
        assert forall|j: int| 0 <= j < stack.len() && !touched(
            parts,
            n,
            j,
        ) implies #[trigger] after[j] == stack[j] by {
            assert(parts[n - 1].0 != j);
            if touched(parts, n - 1, j) {
                let k = choose|k: int| 0 <= k < n - 1 && (#[trigger] parts[k]).0 == j;
                assert(touched(parts, n, j));
            }
            assert(before[j] == stack[j]);
        }
        assert forall|k: int| 0 <= k < n implies after[(#[trigger] parts[k]).0] == (LayerModel {
            color: stack[parts[k].0].color,
            pixels: placed_pixels(stack[parts[k].0].pixels, parts[k].1, new[k]),
        }) by {
            if k < n - 1 {
                assert(parts[k].0 < parts[n - 1].0);
            }
        }
    }
}

/// A commit moves the selected pixels and nothing else: a layer then shows the new pixels and its
/// background, which stays whole even where selected pixels lay on it, and also where the part left
/// the image. Layers without a part stay as they are, and the selection goes on to match the layers.
pub proof fn commit_keeps_outsiders(
    mask: MaskModel,
    parts: Seq<(int, PartModel)>,
    new: Seq<Set<(int, int)>>,
)
    requires
        mask.history.wf(),
        new.len() == parts.len(),
        selection_matches(parts, mask.stack()),
    ensures
        ({
            let after = after_commit(mask, parts, new);
            &&& after.history.wf()
            &&& after.stack().len() == mask.stack().len()
            &&& forall|k: int|
                0 <= k < parts.len() ==> after.stack()[(#[trigger] parts[k]).0].pixels
                    == new[k].union(parts[k].1.background)
            &&& forall|j: int|
                0 <= j < mask.stack().len() && !has_layer(parts, j)
                    ==> #[trigger] after.stack()[j] == mask.stack()[j]
            &&& selection_matches(placed_parts(parts, new), after.stack())
        }),
{
    let after = after_commit(mask, parts, new);
    if all_in_place(parts, new) {
        assert forall|k: int| 0 <= k < parts.len() implies after.stack()[(
        #[trigger] parts[k]).0].pixels == new[k].union(parts[k].1.background) by {
            assert(new[k] == parts[k].1.committed);
        }
    } else {
        lemma_grouped_commit(mask, parts, new);
    }
    let next = placed_parts(parts, new);
    assert forall|k: int| 0 <= k < next.len() implies ({
        let (layer, part) = #[trigger] next[k];
        &&& 0 <= layer < after.stack().len()
        &&& layer <= usize::MAX
        &&& after.stack()[layer].pixels == part.committed.union(part.background)
    }) by {
        assert(parts[k].0 == next[k].0);
    }
    assert forall|i: int, j: int| 0 <= i < j < next.len() implies next[i].0 < next[j].0 by {
        assert(parts[i].0 < parts[j].0);
    }
}

proof fn lemma_grouped_commit(
    mask: MaskModel,
    parts: Seq<(int, PartModel)>,
    new: Seq<Set<(int, int)>>,
)
    requires
        mask.history.wf(),
        new.len() == parts.len(),
        selection_matches(parts, mask.stack()),
    ensures
        ({
            let after = mask.after_edits(grouped(commit_actions(parts, new, new.len() as int)));
            &&& after.history.wf()
            &&& after.stack().len() == mask.stack().len()
            &&& forall|k: int|
                0 <= k < parts.len() ==> after.stack()[(#[trigger] parts[k]).0].pixels
                    == new[k].union(parts[k].1.background)
            &&& forall|j: int|
                0 <= j < mask.stack().len() && !has_layer(parts, j)
                    ==> #[trigger] after.stack()[j] == mask.stack()[j]
        }),
{
    let actions = commit_actions(parts, new, new.len() as int);
    let after = mask.after_edits(grouped(actions));
    edits_apply_in_order(mask, grouped(actions));
    lemma_replay_grouped(mask.stack(), actions);
    lemma_commit_stack(mask.stack(), parts, new, parts.len() as int);
    assert forall|k: int| 0 <= k < parts.len() implies after.stack()[(
    #[trigger] parts[k]).0].pixels == new[k].union(parts[k].1.background) by {
        let (layer, part) = parts[k];
        let pixels = mask.stack()[layer].pixels;
        assert(placed_pixels(pixels, part, new[k]) =~= new[k].union(part.background));
    }
    assert forall|j: int| 0 <= j < mask.stack().len() && !has_layer(
        parts,
        j,
    ) implies #[trigger] after.stack()[j] == mask.stack()[j] by {
        if touched(parts, parts.len() as int, j) {
            let k = choose|k: int| 0 <= k < parts.len() && (#[trigger] parts[k]).0 == j;
            assert(has_layer(parts, j));
        }
    }
}

/// Deleting a selection leaves the background of each layer, whole, and no other layer changes.
pub proof fn delete_keeps_outsiders(mask: MaskModel, parts: Seq<(int, PartModel)>)
    requires
        mask.history.wf(),
        selection_matches(parts, mask.stack()),
    ensures
        ({
            let after = after_delete(mask, parts);
            &&& after.stack().len() == mask.stack().len()
            &&& forall|k: int|
                0 <= k < parts.len() ==> after.stack()[(#[trigger] parts[k]).0].pixels
                    == parts[k].1.background
            &&& forall|j: int|
                0 <= j < mask.stack().len() && !has_layer(parts, j)
                    ==> #[trigger] after.stack()[j] == mask.stack()[j]
        }),
{
    let after = after_delete(mask, parts);
    lemma_grouped_commit(mask, parts, nowhere(parts.len()));
    assert forall|k: int| 0 <= k < parts.len() implies after.stack()[(
    #[trigger] parts[k]).0].pixels == parts[k].1.background by {
        assert(nowhere(parts.len())[k].union(parts[k].1.background) =~= parts[k].1.background);
    }
}

/// The parts after the first `n` of several commits.
pub open spec fn parts_after_commits(
    parts: Seq<(int, PartModel)>,
    places: Seq<Seq<Set<(int, int)>>>,
    n: int,
) -> Seq<(int, PartModel)>
    decreases n,
{
    if n <= 0 {
        parts
    } else {
        placed_parts(parts_after_commits(parts, places, n - 1), places[n - 1])
    }
}

/// The mask after the first `n` of several commits.
pub open spec fn after_commits(
    mask: MaskModel,
    parts: Seq<(int, PartModel)>,
    places: Seq<Seq<Set<(int, int)>>>,
    n: int,
) -> MaskModel
    decreases n,
{
    if n <= 0 {
        mask
    } else {
        after_commit(
            after_commits(mask, parts, places, n - 1),
            parts_after_commits(parts, places, n - 1),
            places[n - 1],
        )
    }
}

/// Whatever commits follow each other, into the image, out of it and over other pixels: each layer
/// of the selection shows its background, whole, and where the last commit placed its part.
pub proof fn outsiders_always_remain(
    mask: MaskModel,
    parts: Seq<(int, PartModel)>,
    places: Seq<Seq<Set<(int, int)>>>,
    n: int,
)
    requires
        mask.history.wf(),
        selection_matches(parts, mask.stack()),
        0 <= n <= places.len(),
        forall|i: int| 0 <= i < places.len() ==> (#[trigger] places[i]).len() == parts.len(),
    ensures
        ({
            let after = after_commits(mask, parts, places, n);
            let parts_after = parts_after_commits(parts, places, n);
            &&& after.history.wf()
            &&& parts_after.len() == parts.len()
            &&& selection_matches(parts_after, after.stack())
            &&& forall|k: int|
                0 <= k < parts.len() ==> {
                    let (layer, part) = #[trigger] parts[k];
                    &&& part.background.subset_of(after.stack()[layer].pixels)
                    &&& n > 0 ==> after.stack()[layer].pixels == places[n - 1][k].union(
                        part.background,
                    )
                    &&& parts_after[k].0 == layer
                    &&& parts_after[k].1.original == part.original
                    &&& parts_after[k].1.background == part.background
                }
        }),
    decreases n,
{
    if n > 0 {
        outsiders_always_remain(mask, parts, places, n - 1);
        let before = after_commits(mask, parts, places, n - 1);
        let parts_before = parts_after_commits(parts, places, n - 1);
        assert(places[n - 1].len() == parts.len());
        commit_keeps_outsiders(before, parts_before, places[n - 1]);
        let after = after_commits(mask, parts, places, n);
        let parts_after = parts_after_commits(parts, places, n);
        assert forall|k: int| 0 <= k < parts.len() implies ({
            let (layer, part) = #[trigger] parts[k];
            &&& part.background.subset_of(after.stack()[layer].pixels)
            &&& after.stack()[layer].pixels == places[n - 1][k].union(part.background)
            &&& parts_after[k].0 == layer
            &&& parts_after[k].1.original == part.original
            &&& parts_after[k].1.background == part.background
        }) by {
            assert(parts_before[k].0 == parts[k].0);
        }
    }
}

proof fn lemma_pushes_from_front(history: HistoryModel, actions: Seq<ActionModel>)
    requires
        actions.len() > 0,
    ensures
        history.after_pushes(actions) == history.after_push(actions[0]).after_pushes(
            actions.drop_first(),
        ),
    decreases actions.len(),
{
    let rest = actions.drop_first();
    if actions.len() == 1 {
        assert(actions.drop_last() =~= Seq::empty());
        assert(history.after_pushes(actions.drop_last()) == history);
        assert(rest =~= Seq::empty());
    } else {
        lemma_pushes_from_front(history, actions.drop_last());
        assert(actions.drop_last().drop_first() =~= rest.drop_last());
        assert(rest.last() == actions.last());
    }
}

/// One undo takes back a group of edits that starts with something else than a reset.
proof fn lemma_undo_group(mask: MaskModel, actions: Seq<ActionModel>)
    requires
        mask.history.wf(),
        actions.len() > 0,
        !(actions[0].kind is Reset),
        forall|k: int| 0 <= k < actions.len() ==> !(#[trigger] actions[k]).is_tracked,
    ensures
        mask.after_edits(grouped(actions)).history.can_undo(),
        mask.after_edits(grouped(actions)).after_undo_key(false).stack() == mask.stack(),
        mask.after_edits(grouped(actions)).after_undo_key(false).history.applied()
            == mask.history.applied(),
{
    let group = grouped(actions);
    lemma_after_edits(mask, group);
    lemma_pushes_from_front(mask.history, group);
    let rest = group.drop_first();
    assert forall|k: int| 0 <= k < rest.len() implies !(#[trigger] rest[k]).is_tracked by {
        assert(rest[k] == actions[k + 1]);
    }
    undo_reverts_group(mask.base, mask.history, group[0], rest);
}

/// The actions of a commit only clear and add. There is one wherever a part was placed or is to be.
proof fn lemma_commit_actions(parts: Seq<(int, PartModel)>, new: Seq<Set<(int, int)>>, n: int)
    requires
        0 <= n <= parts.len(),
    ensures
        forall|k: int|
            0 <= k < commit_actions(parts, new, n).len() ==> !(#[trigger] commit_actions(
                parts,
                new,
                n,
            )[k]).is_tracked && !(commit_actions(parts, new, n)[k].kind is Reset),
        forall|k: int|
            0 <= k < n && ((#[trigger] parts[k]).1.committed != Set::<(int, int)>::empty() || new[k]
                != Set::<(int, int)>::empty()) ==> commit_actions(parts, new, n).len() > 0,
    decreases n,
{
    if n > 0 {
        lemma_commit_actions(parts, new, n - 1);
        let earlier = commit_actions(parts, new, n - 1);
        let last = place_actions(parts[n - 1].0, parts[n - 1].1, new[n - 1]);
        let all = commit_actions(parts, new, n);
        assert forall|k: int| 0 <= k < all.len() implies !(#[trigger] all[k]).is_tracked && !(
        all[k].kind is Reset) by {
            if k < earlier.len() {
                assert(all[k] == earlier[k]);
            } else {
                assert(all[k] == last[k - earlier.len()]);
            }
        }
    }
}

/// One undo takes back a commit on all layers.
pub proof fn undo_reverts_commit(
    mask: MaskModel,
    parts: Seq<(int, PartModel)>,
    new: Seq<Set<(int, int)>>,
)
    requires
        mask.history.wf(),
        new.len() == parts.len(),
        !all_in_place(parts, new),
    ensures
        ({
            let after = after_commit(mask, parts, new);
            &&& after.history.can_undo()
            &&& after.after_undo_key(false).stack() == mask.stack()
            &&& after.after_undo_key(false).history.applied() == mask.history.applied()
        }),
{
    lemma_commit_actions(parts, new, new.len() as int);
    let k = choose|k: int| 0 <= k < parts.len() && #[trigger] new[k] != parts[k].1.committed;
    assert(parts[k].1.committed != Set::<(int, int)>::empty() || new[k] != Set::<
        (int, int),
    >::empty());
    lemma_undo_group(mask, commit_actions(parts, new, new.len() as int));
}

/// One undo takes back the deletion of a selection, something of which was in the image, on all
/// layers.
pub proof fn undo_reverts_delete(mask: MaskModel, parts: Seq<(int, PartModel)>)
    requires
        mask.history.wf(),
        exists|k: int|
            0 <= k < parts.len() && (#[trigger] parts[k]).1.committed != Set::<
                (int, int),
            >::empty(),
    ensures
        ({
            let after = after_delete(mask, parts);
            &&& after.history.can_undo()
            &&& after.after_undo_key(false).stack() == mask.stack()
            &&& after.after_undo_key(false).history.applied() == mask.history.applied()
        }),
{
    lemma_commit_actions(parts, nowhere(parts.len()), parts.len() as int);
    lemma_undo_group(mask, commit_actions(parts, nowhere(parts.len()), parts.len() as int));
}

/// A commit that places a part elsewhere writes to the history.
pub(crate) proof fn commit_writes_history(
    mask: MaskModel,
    parts: Seq<(int, PartModel)>,
    new: Seq<Set<(int, int)>>,
)
    requires
        mask.history.wf(),
        new.len() == parts.len(),
        !all_in_place(parts, new),
    ensures
        after_commit(mask, parts, new) != mask,
        after_commit(mask, parts, new).history.applied().len() > mask.history.applied().len(),
{
    lemma_commit_actions(parts, new, new.len() as int);
    let k = choose|k: int| 0 <= k < parts.len() && #[trigger] new[k] != parts[k].1.committed;
    assert(parts[k].1.committed != Set::<(int, int)>::empty() || new[k] != Set::<
        (int, int),
    >::empty());
    let actions = commit_actions(parts, new, new.len() as int);
    lemma_undo_group(mask, actions);
    let after = mask.after_edits(grouped(actions));
    edits_apply_in_order(mask, grouped(actions));
    crate::history::undo_takes_back_a_group(after.history);
    assert(after.history.after_undo().applied() == mask.history.applied());
}

/// What a commit does to the layers, pixel by pixel. A pixel is on the layer of a part afterwards where
/// the part is placed on it, where the layer had it and the part was not on it before, and where the
/// part had hidden it. Colors, other layers and the number of layers stay.
pub proof fn commit_places_the_parts(
    mask: MaskModel,
    parts: Seq<(int, PartModel)>,
    new: Seq<Set<(int, int)>>,
    k: int,
    q: (int, int),
    other: int,
)
    requires
        mask.history.wf(),
        new.len() == parts.len(),
        on_layers(parts, mask.stack()),
        exists|j: int| 0 <= j < parts.len() && #[trigger] new[j] != parts[j].1.committed,
        0 <= k < parts.len(),
    ensures
        ({
            let after = after_commit(mask, parts, new).stack();
            let (layer, part) = parts[k];
            let before = mask.stack();
            &&& after.len() == before.len()
            &&& after[layer].color == before[layer].color
            &&& after[layer].pixels.contains(q) <==> new[k].contains(q) || (
            before[layer].pixels.contains(q) && !part.committed.contains(q)) || (
            part.background.contains(q) && part.committed.contains(q))
            &&& 0 <= other < before.len() && (forall|j: int|
                0 <= j < parts.len() ==> (#[trigger] parts[j]).0 != other) ==> after[other]
                == before[other]
        }),
{
    lemma_placed_parts(mask, parts, new, k, q, other);
}

/// What deleting does to the layers, pixel by pixel: the pixels that the parts are on leave their
/// layers, but for those that the parts had hidden.
pub proof fn delete_removes_the_parts(
    mask: MaskModel,
    parts: Seq<(int, PartModel)>,
    k: int,
    q: (int, int),
    other: int,
)
    requires
        mask.history.wf(),
        on_layers(parts, mask.stack()),
        0 <= k < parts.len(),
    ensures
        ({
            let after = after_delete(mask, parts).stack();
            let (layer, part) = parts[k];
            let before = mask.stack();
            &&& after.len() == before.len()
            &&& after[layer].color == before[layer].color
            &&& after[layer].pixels.contains(q) <==> (before[layer].pixels.contains(q)
                && !part.committed.contains(q)) || (part.background.contains(q)
                && part.committed.contains(q))
            &&& 0 <= other < before.len() && (forall|j: int|
                0 <= j < parts.len() ==> (#[trigger] parts[j]).0 != other) ==> after[other]
                == before[other]
        }),
{
    lemma_placed_parts(mask, parts, nowhere(parts.len()), k, q, other);
}

proof fn lemma_placed_parts(
    mask: MaskModel,
    parts: Seq<(int, PartModel)>,
    new: Seq<Set<(int, int)>>,
    k: int,
    q: (int, int),
    other: int,
)
    requires
        mask.history.wf(),
        new.len() == parts.len(),
        on_layers(parts, mask.stack()),
        0 <= k < parts.len(),
    ensures
        ({
            let after = mask.after_edits(
                grouped(commit_actions(parts, new, new.len() as int)),
            ).stack();
            let (layer, part) = parts[k];
            let before = mask.stack();
            &&& after.len() == before.len()
            &&& after[layer].color == before[layer].color
            &&& after[layer].pixels.contains(q) <==> new[k].contains(q) || (
            before[layer].pixels.contains(q) && !part.committed.contains(q)) || (
            part.background.contains(q) && part.committed.contains(q))
            &&& 0 <= other < before.len() && (forall|j: int|
                0 <= j < parts.len() ==> (#[trigger] parts[j]).0 != other) ==> after[other]
                == before[other]
        }),
{
    let actions = commit_actions(parts, new, new.len() as int);
    edits_apply_in_order(mask, grouped(actions));
    lemma_replay_grouped(mask.stack(), actions);
    lemma_commit_stack(mask.stack(), parts, new, parts.len() as int);
    assert(parts[k].0 >= 0);
    if 0 <= other < mask.stack().len() && (forall|j: int|
        0 <= j < parts.len() ==> (#[trigger] parts[j]).0 != other) {
        assert(!touched(parts, parts.len() as int, other));
    }
}

proof fn lemma_nothing_to_delete(parts: Seq<(int, PartModel)>, n: int)
    requires
        0 <= n <= parts.len(),
        forall|k: int|
            0 <= k < parts.len() ==> (#[trigger] parts[k]).1.committed == Set::<
                (int, int),
            >::empty(),
    ensures
        commit_actions(parts, nowhere(parts.len()), n).len() == 0,
    decreases n,
{
    if n > 0 {
        lemma_nothing_to_delete(parts, n - 1);
        let part = parts[n - 1].1;
        assert(part.committed == Set::<(int, int)>::empty());
        assert(part.covered_background() =~= Set::empty());
    }
}

/// Where a deletion or a commit changed the mask, one undo gives back the layers from before it.
pub proof fn changes_of_selections_can_be_undone(
    mask: MaskModel,
    parts: Seq<(int, PartModel)>,
    new: Seq<Set<(int, int)>>,
)
    requires
        mask.history.wf(),
    ensures
        after_delete(mask, parts) != mask ==> after_delete(mask, parts).history.can_undo()
            && after_delete(mask, parts).after_undo_key(false).stack() == mask.stack(),
        new.len() == parts.len() && after_commit(mask, parts, new) != mask ==> after_commit(
            mask,
            parts,
            new,
        ).history.can_undo() && after_commit(mask, parts, new).after_undo_key(false).stack()
            == mask.stack(),
{
    if exists|k: int|
        0 <= k < parts.len() && (#[trigger] parts[k]).1.committed != Set::<(int, int)>::empty() {
        undo_reverts_delete(mask, parts);
    } else {
        lemma_nothing_to_delete(parts, parts.len() as int);
    }
    if new.len() == parts.len() && !all_in_place(parts, new) {
        undo_reverts_commit(mask, parts, new);
    }
}

proof fn lemma_edits_applied(mask: MaskModel, actions: Seq<ActionModel>)
    requires
        mask.history.wf(),
        forall|k: int| 0 <= k < actions.len() ==> !((#[trigger] actions[k]).kind is Reset),
    ensures
        mask.after_edits(actions).history.wf(),
        mask.after_edits(actions).history.applied() == mask.history.applied() + actions,
    decreases actions.len(),
{
    if actions.len() > 0 {
        let rest = actions.drop_last();
        assert forall|k: int| 0 <= k < rest.len() implies !((#[trigger] rest[k]).kind is Reset) by {
            assert(rest[k] == actions[k]);
        }
        lemma_edits_applied(mask, rest);
        let before = mask.after_edits(rest);
        assert(!(actions[actions.len() - 1].kind is Reset));
        crate::history::push_is_kept(before.history, actions.last());
        crate::history::push_ends_redo(before.history, actions.last());
        assert(mask.history.applied() + actions =~= (mask.history.applied() + rest).push(
            actions.last(),
        ));
    } else {
        assert(mask.history.applied() + actions =~= mask.history.applied());
    }
}

/// Whether the action is for the layer of a part.
pub open spec fn names_a_part(action: ActionModel, parts: Seq<(int, PartModel)>) -> bool {
    exists|k: int|
        0 <= k < parts.len() && action.layer == AffectedLayer::Layer(
            (#[trigger] parts[k]).0 as usize,
        )
}

proof fn lemma_commit_layers(parts: Seq<(int, PartModel)>, new: Seq<Set<(int, int)>>, n: int)
    requires
        0 <= n <= parts.len(),
    ensures
        forall|j: int|
            0 <= j < commit_actions(parts, new, n).len() ==> names_a_part(
                #[trigger] commit_actions(parts, new, n)[j],
                parts,
            ),
    decreases n,
{
    if n > 0 {
        lemma_commit_layers(parts, new, n - 1);
        let earlier = commit_actions(parts, new, n - 1);
        let last = place_actions(parts[n - 1].0, parts[n - 1].1, new[n - 1]);
        let all = commit_actions(parts, new, n);
        assert forall|j: int| 0 <= j < all.len() implies names_a_part(#[trigger] all[j], parts) by {
            if j < earlier.len() {
                assert(all[j] == earlier[j]);
            } else {
                assert(all[j] == last[j - earlier.len()]);
                assert(all[j].layer == AffectedLayer::Layer(parts[n - 1].0 as usize));
            }
        }
    }
}

/// A commit that places a part elsewhere keeps the history before it, and writes one group: its first
/// action is tracked and no other is. Each of its actions adds to the layer of a part or clears it.
pub proof fn commit_is_one_group(
    mask: MaskModel,
    parts: Seq<(int, PartModel)>,
    new: Seq<Set<(int, int)>>,
    j: int,
)
    requires
        mask.history.wf(),
        new.len() == parts.len(),
        exists|k: int| 0 <= k < parts.len() && #[trigger] new[k] != parts[k].1.committed,
    ensures
        ({
            let before = mask.history.applied();
            let after = after_commit(mask, parts, new).history.applied();
            &&& before.len() < after.len()
            &&& after.take(before.len() as int) == before
            &&& before.len() <= j < after.len() ==> {
                &&& after[j].is_tracked <==> j == before.len()
                &&& after[j].kind is Add || after[j].kind is Clear
                &&& exists|k: int|
                    0 <= k < parts.len() && after[j].layer == AffectedLayer::Layer(
                        (#[trigger] parts[k]).0 as usize,
                    )
            }
        }),
{
    let n = new.len() as int;
    let actions = commit_actions(parts, new, n);
    let group = grouped(actions);
    lemma_commit_actions(parts, new, n);
    lemma_commit_layers(parts, new, n);
    let moved = choose|k: int| 0 <= k < parts.len() && #[trigger] new[k] != parts[k].1.committed;
    assert(!all_in_place(parts, new));
    assert(parts[moved].1.committed != Set::<(int, int)>::empty() || new[moved] != Set::<
        (int, int),
    >::empty());
    assert(actions.len() > 0);
    assert forall|k: int| 0 <= k < group.len() implies !((#[trigger] group[k]).kind is Reset) by {
        assert(group[k].kind == actions[k].kind);
    }
    lemma_edits_applied(mask, group);
    let before = mask.history.applied();
    let after = after_commit(mask, parts, new).history.applied();
    assert(after == before + group);
    assert(after.take(before.len() as int) =~= before);
    if before.len() <= j < after.len() {
        let i = j - before.len();
        assert(after[j] == group[i]);
        assert(group[i].kind == actions[i].kind && group[i].layer == actions[i].layer);
        assert(names_a_part(actions[i], parts));
        lemma_commit_kinds(parts, new, n);
    }
}

proof fn lemma_commit_kinds(parts: Seq<(int, PartModel)>, new: Seq<Set<(int, int)>>, n: int)
    requires
        0 <= n <= parts.len(),
    ensures
        forall|j: int|
            0 <= j < commit_actions(parts, new, n).len() ==> (#[trigger] commit_actions(
                parts,
                new,
                n,
            )[j]).kind is Add || commit_actions(parts, new, n)[j].kind is Clear,
    decreases n,
{
    if n > 0 {
        lemma_commit_kinds(parts, new, n - 1);
        let earlier = commit_actions(parts, new, n - 1);
        let last = place_actions(parts[n - 1].0, parts[n - 1].1, new[n - 1]);
        let all = commit_actions(parts, new, n);
        assert forall|j: int| 0 <= j < all.len() implies (#[trigger] all[j]).kind is Add
            || all[j].kind is Clear by {
            if j < earlier.len() {
                assert(all[j] == earlier[j]);
            } else {
                assert(all[j] == last[j - earlier.len()]);
            }
        }
    }
}

} // verus!
