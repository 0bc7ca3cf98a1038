//! History is a list of actions that can be applied to a stack of layers.
//! No action knows how to take itself back: an undo applies the actions that are left to the stack
//! that everything started from.
use crate::affected_layer::AffectedLayer;
use crate::color::{color_at_position, position_color};
use crate::pixel_area::{
    layer_models, padded, prepare_layer_space, Layer, LayerModel, PixelArea,
};
use crate::ranges::SortedRanges;
use vstd::prelude::*;
use vstd::std_specs::cmp::PartialEqSpec;

verus! {

/// What an action does.
#[verifier::ext_equal]
pub enum KindModel {
    Add(Set<(int, int)>),
    Reset,
    Clear(Set<(int, int)>),
    Replace(Set<(int, int)>),
}

/// What an action does, to which layers, and whether it starts an undo group.
#[verifier::ext_equal]
pub struct ActionModel {
    pub kind: KindModel,
    pub layer: AffectedLayer,
    pub is_tracked: bool,
}

/// The stack with `edit` done to each layer that `affected` selects.
pub open spec fn edited(
    stack: Seq<LayerModel>,
    affected: AffectedLayer,
    edit: spec_fn(LayerModel) -> LayerModel,
) -> Seq<LayerModel> {
    Seq::new(
        stack.len(),
        |i: int|
            if affected.affects_layer(i) {
                edit(stack[i])
            } else {
                stack[i]
            },
    )
}

/// The stack with empty layers appended until every layer that `affected` names is there.
pub open spec fn with_room(stack: Seq<LayerModel>, affected: AffectedLayer) -> Seq<LayerModel> {
    match affected {
        AffectedLayer::Layer(index) => padded(stack, index as int),
        AffectedLayer::Range(start, Some(end)) => if start < end {
            padded(stack, end - 1)
        } else {
            stack
        },
        _ => stack,
    }
}

pub open spec fn pixels_added(added: Set<(int, int)>) -> spec_fn(LayerModel) -> LayerModel {
    |l: LayerModel| LayerModel { color: l.color, pixels: l.pixels.union(added) }
}

pub open spec fn pixels_removed(removed: Set<(int, int)>) -> spec_fn(LayerModel) -> LayerModel {
    |l: LayerModel| LayerModel { color: l.color, pixels: l.pixels.difference(removed) }
}

pub open spec fn pixels_set(pixels: Set<(int, int)>) -> spec_fn(LayerModel) -> LayerModel {
    |l: LayerModel| LayerModel { color: l.color, pixels }
}

/// The stack that an action makes of a stack.
pub open spec fn after_action(stack: Seq<LayerModel>, action: ActionModel) -> Seq<LayerModel> {
    match action.kind {
        KindModel::Add(pixels) => if action.layer == AffectedLayer::Unspecified {
            stack.push(LayerModel { color: position_color(stack.len() as int), pixels })
        } else {
            edited(with_room(stack, action.layer), action.layer, pixels_added(pixels))
        },
        KindModel::Reset => if action.layer == AffectedLayer::Unspecified {
            Seq::empty()
        } else {
            edited(stack, action.layer, pixels_set(Set::empty()))
        },
        KindModel::Clear(pixels) => edited(stack, action.layer, pixels_removed(pixels)),
        KindModel::Replace(pixels) => edited(
            with_room(stack, action.layer),
            action.layer,
            pixels_set(pixels),
        ),
    }
}

/// The stack that the actions make of `base`, one after the other.
pub open spec fn replay(base: Seq<LayerModel>, actions: Seq<ActionModel>) -> Seq<LayerModel>
    decreases actions.len(),
{
    if actions.len() == 0 {
        base
    } else {
        after_action(replay(base, actions.drop_last()), actions.last())
    }
}

/// The stack with `edit` done to the layers `from..to`, which are made where they are missing.
spec fn edited_range(
    stack: Seq<LayerModel>,
    from: int,
    to: int,
    edit: spec_fn(LayerModel) -> LayerModel,
) -> Seq<LayerModel> {
    if from >= to {
        stack
    } else {
        let room = padded(stack, to - 1);
        Seq::new(
            room.len(),
            |i: int|
                if from <= i < to {
                    edit(room[i])
                } else {
                    room[i]
                },
        )
    }
}

proof fn lemma_edit_step(
    stack: Seq<LayerModel>,
    from: int,
    to: int,
    edit: spec_fn(LayerModel) -> LayerModel,
)
    requires
        0 <= from <= to,
    ensures
        ({
            let room = padded(edited_range(stack, from, to, edit), to);
            room.update(to, edit(room[to])) == edited_range(stack, from, to + 1, edit)
        }),
{
    let done = edited_range(stack, from, to, edit);
    let room = padded(done, to);
    let before = padded(stack, to);
    assert(room.len() == before.len());
    assert(room[to] == before[to]);
    assert(room.update(to, edit(room[to])) =~= edited_range(stack, from, to + 1, edit));
}

/// Adds the pixels to layer `index`, which is made where it is missing.
fn apply_add(layers: &mut Vec<Layer>, index: usize, add: &HistoryActionAdd)
    ensures
        ({
            let room = padded(layer_models(old(layers)@), index as int);
            layer_models(final(layers)@) == room.update(
                index as int,
                pixels_added(add.pixel_area@)(room[index as int]),
            )
        }),
{
    let target = prepare_layer_space(layers, index);
    match target.clear_ranges() {
        Some(existing) => {
            target.set_ranges(existing.union(&add.pixel_area));
        },
        None => {
            let ranges = add.pixel_area.clone();
            assert(Set::<(int, int)>::empty().union(ranges@) =~= ranges@);
            target.set_ranges(ranges);
        },
    }
}

/// Adds the pixels to the layers `start..end`, which are made where they are missing.
fn apply_add_range(layers: &mut Vec<Layer>, start: usize, end: usize, add: &HistoryActionAdd)
    ensures
        layer_models(final(layers)@) == edited_range(
            layer_models(old(layers)@),
            start as int,
            end as int,
            pixels_added(add.pixel_area@),
        ),
{
    let ghost stack = layer_models(layers@);
    let mut index: usize = start;
    while index < end
        invariant
            start <= index,
            index <= end || index == start,
            layer_models(layers@) == edited_range(
                stack,
                start as int,
                index as int,
                pixels_added(add.pixel_area@),
            ),
        decreases end - index,
    {
        proof {
            lemma_edit_step(stack, start as int, index as int, pixels_added(add.pixel_area@));
        }
        apply_add(layers, index, add);
        index += 1;
    }
}

/// Gives the pixels to the layers `start..end`, which are made where they are missing.
fn apply_replace(layers: &mut Vec<Layer>, start: usize, end: usize, replace: &HistoryActionReplace)
    ensures
        layer_models(final(layers)@) == edited_range(
            layer_models(old(layers)@),
            start as int,
            end as int,
            pixels_set(replace.pixel_area@),
        ),
{
    let ghost stack = layer_models(layers@);
    let mut index: usize = start;
    while index < end
        invariant
            start <= index,
            index <= end || index == start,
            layer_models(layers@) == edited_range(
                stack,
                start as int,
                index as int,
                pixels_set(replace.pixel_area@),
            ),
        decreases end - index,
    {
        proof {
            lemma_edit_step(stack, start as int, index as int, pixels_set(replace.pixel_area@));
        }
        prepare_layer_space(layers, index).set_ranges(replace.pixel_area.clone());
        index += 1;
    }
}

/// Takes the pixels from the layer, all of them where `removed` is `None`.
fn remove_pixels(layer: &mut Layer, removed: Option<&SortedRanges>)
    ensures
        final(layer)@ == (match removed {
            Some(r) => pixels_removed(r@)(old(layer)@),
            None => pixels_set(Set::empty())(old(layer)@),
        }),
{
    let ghost was = layer@;
    if let Some(ranges) = layer.clear_ranges() {
        if let Some(removed) = removed {
            if let Some(rest) = ranges.subtract(removed) {
                layer.set_ranges(rest);
            }
        }
    } else {
        proof {
            if let Some(r) = removed {
                assert(was.pixels.difference(r@) =~= Set::empty());
            }
        }
    }
}

/// Takes the pixels from every affected layer, all of them where `removed` is `None`.
fn remove_from_layers(
    layers: &mut Vec<Layer>,
    affected: AffectedLayer,
    removed: Option<&SortedRanges>,
)
    ensures
        layer_models(final(layers)@) == edited(
            layer_models(old(layers)@),
            affected,
            match removed {
                Some(r) => pixels_removed(r@),
                None => pixels_set(Set::empty()),
            },
        ),
{
    let ghost start = layers@;
    let ghost edit = match removed {
        Some(r) => pixels_removed(r@),
        None => pixels_set(Set::empty()),
    };
    let mut i: usize = 0;
    while i < layers.len()
        invariant
            i <= layers@.len(),
            layers@.len() == start.len(),
            edit == (match removed {
                Some(r) => pixels_removed(r@),
                None => pixels_set(Set::empty()),
            }),
            forall|k: int|
                0 <= k < i ==> (#[trigger] layers@[k])@ == if affected.affects_layer(k) {
                    edit(start[k]@)
                } else {
                    start[k]@
                },
            forall|k: int| i <= k < layers@.len() ==> layers@[k] == start[k],
        decreases layers@.len() - i,
    {
        if affected.affects(i) {
            remove_pixels(&mut layers[i], removed);
        }
        i += 1;
    }
    assert(layer_models(layers@) =~= edited(layer_models(start), affected, edit));
}

#[derive(Debug, PartialEq, Eq)]
pub struct HistoryActionAdd {
    pub pixel_area: SortedRanges,
}

#[derive(Debug, PartialEq, Eq)]
pub struct HistoryActionClear {
    pub ranges: SortedRanges,
}

#[derive(Debug, PartialEq, Eq)]
pub struct HistoryActionReplace {
    pub pixel_area: SortedRanges,
}

#[derive(Debug, PartialEq, Eq)]
pub enum HistoryActionKind {
    /// Adds the pixels to the affected layers, or makes a layer of them.
    Add(HistoryActionAdd),
    /// Empties the affected layers, or drops all layers.
    Reset,
    /// Takes the pixels from the affected layers.
    Clear(HistoryActionClear),
    /// Gives the affected layers these pixels and no others.
    Replace(HistoryActionReplace),
}

impl View for HistoryActionKind {
    type V = KindModel;

    open spec fn view(&self) -> KindModel {
        match self {
            HistoryActionKind::Add(add) => KindModel::Add(add.pixel_area@),
            HistoryActionKind::Reset => KindModel::Reset,
            HistoryActionKind::Clear(clear) => KindModel::Clear(clear.ranges@),
            HistoryActionKind::Replace(replace) => KindModel::Replace(replace.pixel_area@),
        }
    }
}

impl Clone for HistoryActionKind {
    fn clone(&self) -> (copy: Self)
        ensures
            copy@ == self@,
    {
        match self {
            HistoryActionKind::Add(add) => HistoryActionKind::Add(
                HistoryActionAdd { pixel_area: add.pixel_area.clone() },
            ),
            HistoryActionKind::Reset => HistoryActionKind::Reset,
            HistoryActionKind::Clear(clear) => HistoryActionKind::Clear(
                HistoryActionClear { ranges: clear.ranges.clone() },
            ),
            HistoryActionKind::Replace(replace) => HistoryActionKind::Replace(
                HistoryActionReplace { pixel_area: replace.pixel_area.clone() },
            ),
        }
    }
}

impl HistoryActionKind {
    /// Whether both kinds do the same.
    pub fn same(&self, other: &HistoryActionKind) -> (same: bool)
        ensures
            same == (self@ == other@),
    {
        match (self, other) {
            (HistoryActionKind::Add(a), HistoryActionKind::Add(b)) => a.pixel_area == b.pixel_area,
            (HistoryActionKind::Reset, HistoryActionKind::Reset) => true,
            (HistoryActionKind::Clear(a), HistoryActionKind::Clear(b)) => a.ranges == b.ranges,
            (HistoryActionKind::Replace(a), HistoryActionKind::Replace(b)) => a.pixel_area
                == b.pixel_area,
            _ => false,
        }
    }
}

/// One edit of a mask.
#[derive(Debug)]
pub struct HistoryAction {
    pub kind: HistoryActionKind,
    pub layer: AffectedLayer,
    /// Whether the action starts an undo group. One without it belongs to the group before it.
    pub is_tracked: bool,
}

impl View for HistoryAction {
    type V = ActionModel;

    open spec fn view(&self) -> ActionModel {
        ActionModel { kind: self.kind@, layer: self.layer, is_tracked: self.is_tracked }
    }
}

impl Clone for HistoryAction {
    fn clone(&self) -> (copy: Self)
        ensures
            copy@ == self@,
    {
        HistoryAction { kind: self.kind.clone(), layer: self.layer, is_tracked: self.is_tracked }
    }
}

impl PartialEq for HistoryAction {
    fn eq(&self, other: &Self) -> (same: bool) {
        self.kind.same(&other.kind) && self.layer == other.layer && self.is_tracked == other.is_tracked
    }
}

impl vstd::std_specs::cmp::PartialEqSpecImpl for HistoryAction {
    open spec fn obeys_eq_spec() -> bool {
        true
    }

    open spec fn eq_spec(&self, other: &Self) -> bool {
        self@ == other@
    }
}

impl Eq for HistoryAction {

}

impl HistoryAction {
    pub fn layer(&self) -> (layer: AffectedLayer)
        ensures
            layer == self.layer,
    {
        self.layer
    }

    /// The layers that the action makes of `rest`.
    pub fn apply(&self, rest: Vec<Layer>) -> (layers: Vec<Layer>)
        ensures
            layer_models(layers@) == after_action(layer_models(rest@), self@),
    {
        let ghost stack = layer_models(rest@);
        let mut layers = rest;
        match &self.kind {
            HistoryActionKind::Add(add) => {
                let ghost edit = pixels_added(add.pixel_area@);
                match self.layer {
                    AffectedLayer::Unspecified => {
                        let color: [u8; 4] = color_at_position(layers.len());
                        let ghost was = layers@;
                        let filled = Layer::Filled(
                            PixelArea::from_ranges(add.pixel_area.clone(), color),
                        );
                        layers.push(filled);
                        assert(layer_models(layers@) =~= layer_models(was).push(filled@));
                    },
                    AffectedLayer::Layer(index) => {
                        apply_add(&mut layers, index, add);
                        assert(layer_models(layers@) =~= edited(
                            with_room(stack, self.layer),
                            self.layer,
                            edit,
                        ));
                    },
                    AffectedLayer::Range(start, Some(end)) => {
                        apply_add_range(&mut layers, start, end, add);
                        assert(layer_models(layers@) =~= edited(
                            with_room(stack, self.layer),
                            self.layer,
                            edit,
                        ));
                    },
                    AffectedLayer::Range(start, None) => {
                        let end: usize = layers.len();
                        apply_add_range(&mut layers, start, end, add);
                        assert(layer_models(layers@) =~= edited(stack, self.layer, edit));
                    },
                }
            },
            HistoryActionKind::Reset => {
                match self.layer {
                    AffectedLayer::Unspecified => {
                        layers.clear();
                        assert(layer_models(layers@) =~= Seq::empty());
                    },
                    affected => {
                        remove_from_layers(&mut layers, affected, None);
                    },
                }
            },
            HistoryActionKind::Clear(clear) => {
                remove_from_layers(&mut layers, self.layer, Some(&clear.ranges));
            },
            HistoryActionKind::Replace(replace) => {
                let ghost edit = pixels_set(replace.pixel_area@);
                match self.layer {
                    AffectedLayer::Unspecified => {
                        let end: usize = layers.len();
                        apply_replace(&mut layers, 0, end, replace);
                    },
                    AffectedLayer::Layer(index) => {
                        prepare_layer_space(&mut layers, index).set_ranges(
                            replace.pixel_area.clone(),
                        );
                    },
                    AffectedLayer::Range(start, Some(end)) => {
                        apply_replace(&mut layers, start, end, replace);
                    },
                    AffectedLayer::Range(start, None) => {
                        let end: usize = layers.len();
                        apply_replace(&mut layers, start, end, replace);
                    },
                }
                assert(layer_models(layers@) =~= edited(
                    with_room(stack, self.layer),
                    self.layer,
                    edit,
                ));
            },
        }
        layers
    }
}

/// What the actions do, in order.
pub open spec fn action_models(actions: Seq<HistoryAction>) -> Seq<ActionModel> {
    actions.map_values(|a: HistoryAction| a@)
}

/// The first tracked action at or after `from`; the number of actions where there is none.
pub open spec fn next_tracked(actions: Seq<ActionModel>, from: int) -> int
    decreases actions.len() - from,
{
    if from >= actions.len() {
        actions.len() as int
    } else if actions[from].is_tracked {
        from
    } else {
        next_tracked(actions, from + 1)
    }
}

/// The last tracked action before `end`.
pub open spec fn last_tracked(actions: Seq<ActionModel>, end: int) -> Option<int>
    decreases end,
{
    if end <= 0 {
        None
    } else if actions[end - 1].is_tracked {
        Some(end - 1)
    } else {
        last_tracked(actions, end - 1)
    }
}

/// What a history holds.
#[verifier::ext_equal]
pub struct HistoryModel {
    /// All actions, those that an undo took back at the end.
    pub actions: Seq<ActionModel>,
    /// How many of the actions are applied.
    pub end: int,
    /// How many actions were applied when the state was last known to be saved.
    pub saved: Option<int>,
    /// The layer of the last undo or redo, where no push came after it.
    pub undo_redo_layer: Option<AffectedLayer>,
}

impl HistoryModel {
    /// What was taken back starts with a tracked action: undo groups are whole. Where all was taken
    /// back since the last save, the undo that did so is remembered.
    pub open spec fn wf(self) -> bool {
        &&& 0 <= self.end <= self.actions.len()
        &&& self.end < self.actions.len() ==> self.actions[self.end].is_tracked
        &&& self.end == 0 && self.is_dirty() ==> self.undo_redo_layer is Some
    }

    /// The actions that are applied.
    pub open spec fn applied(self) -> Seq<ActionModel> {
        self.actions.take(self.end)
    }

    pub open spec fn is_dirty(self) -> bool {
        self.saved != Some(self.end)
    }

    /// The layer of the last change since the last save: that of the last undo or redo, or else that
    /// of the last applied action.
    pub open spec fn dirty_layer(self) -> Option<AffectedLayer> {
        if !self.is_dirty() {
            None
        } else if self.undo_redo_layer is Some {
            self.undo_redo_layer
        } else if self.end > 0 {
            Some(self.actions[self.end - 1].layer)
        } else {
            None
        }
    }

    pub open spec fn saved_here(self) -> HistoryModel {
        HistoryModel { saved: Some(self.end), ..self }
    }

    /// Whether `action` is a reset that the last applied action was already.
    pub open spec fn repeats_reset(self, action: ActionModel) -> bool {
        &&& self.end > 0
        &&& self.actions[self.end - 1].kind == KindModel::Reset
        &&& action.kind == KindModel::Reset
        &&& self.actions[self.end - 1].layer == action.layer
    }

    /// A push drops what was taken back and adds the action. A repeated reset does neither.
    pub open spec fn after_push(self, action: ActionModel) -> HistoryModel {
        if self.repeats_reset(action) {
            HistoryModel { undo_redo_layer: None, ..self }
        } else {
            HistoryModel {
                actions: self.applied().push(action),
                end: self.end + 1,
                saved: match self.saved {
                    Some(at) => if at > self.end {
                        None
                    } else {
                        Some(at)
                    },
                    None => None,
                },
                undo_redo_layer: None,
            }
        }
    }

    pub open spec fn can_undo(self) -> bool {
        last_tracked(self.actions, self.end) is Some
    }

    /// The tracked action that an undo goes back to.
    pub open spec fn undo_target(self) -> int {
        last_tracked(self.actions, self.end)->0
    }

    /// An undo takes back the last tracked action and all after it.
    pub open spec fn after_undo(self) -> HistoryModel {
        if self.can_undo() {
            HistoryModel {
                end: self.undo_target(),
                undo_redo_layer: Some(self.actions[self.undo_target()].layer),
                ..self
            }
        } else {
            self
        }
    }

    pub open spec fn can_redo(self) -> bool {
        next_tracked(self.actions, self.end) < self.actions.len()
    }

    /// The tracked action that a redo starts with.
    pub open spec fn redo_target(self) -> int {
        next_tracked(self.actions, self.end)
    }

    /// A redo applies a tracked action again and all that follow it up to the next tracked one.
    pub open spec fn after_redo(self) -> HistoryModel {
        if self.can_redo() {
            HistoryModel {
                end: next_tracked(self.actions, self.redo_target() + 1),
                undo_redo_layer: Some(self.actions[self.redo_target()].layer),
                ..self
            }
        } else {
            self
        }
    }

    /// The history after pushing all the actions in order.
    pub open spec fn after_pushes(self, actions: Seq<ActionModel>) -> HistoryModel
        decreases actions.len(),
    {
        if actions.len() == 0 {
            self
        } else {
            self.after_pushes(actions.drop_last()).after_push(actions.last())
        }
    }
}

proof fn lemma_next_tracked(actions: Seq<ActionModel>, from: int)
    requires
        0 <= from <= actions.len(),
    ensures
        from <= next_tracked(actions, from) <= actions.len(),
        next_tracked(actions, from) < actions.len() ==> actions[next_tracked(
            actions,
            from,
        )].is_tracked,
        forall|k: int|
            from <= k < next_tracked(actions, from) ==> !(#[trigger] actions[k]).is_tracked,
    decreases actions.len() - from,
{
    if from < actions.len() && !actions[from].is_tracked {
        lemma_next_tracked(actions, from + 1);
    }
}

proof fn lemma_next_is(actions: Seq<ActionModel>, from: int, at: int)
    requires
        0 <= from <= at <= actions.len(),
        at < actions.len() ==> actions[at].is_tracked,
        forall|k: int| from <= k < at ==> !(#[trigger] actions[k]).is_tracked,
    ensures
        next_tracked(actions, from) == at,
    decreases at - from,
{
    if from < at {
        lemma_next_is(actions, from + 1, at);
    }
}

proof fn lemma_last_tracked(actions: Seq<ActionModel>, end: int)
    requires
        0 <= end <= actions.len(),
    ensures
        last_tracked(actions, end) matches Some(at) ==> 0 <= at < end && actions[at].is_tracked
            && forall|k: int| at < k < end ==> !(#[trigger] actions[k]).is_tracked,
        last_tracked(actions, end) is None ==> forall|k: int|
            0 <= k < end ==> !(#[trigger] actions[k]).is_tracked,
    decreases end,
{
    if end > 0 && !actions[end - 1].is_tracked {
        lemma_last_tracked(actions, end - 1);
    }
}

proof fn lemma_last_is(actions: Seq<ActionModel>, end: int, at: int)
    requires
        0 <= at < end <= actions.len(),
        actions[at].is_tracked,
        forall|k: int| at < k < end ==> !(#[trigger] actions[k]).is_tracked,
    ensures
        last_tracked(actions, end) == Some(at),
    decreases end - at,
{
    if at < end - 1 {
        lemma_last_is(actions, end - 1, at);
    }
}

/// The target of an undo is an applied tracked action, and all applied actions after it are of its
/// group. There is none only where no applied action is tracked.
pub proof fn undo_takes_back_a_group(history: HistoryModel)
    requires
        history.wf(),
    ensures
        history.after_undo().wf(),
        history.after_undo().actions == history.actions,
        history.after_undo().saved == history.saved,
        !history.can_undo() ==> history.after_undo() == history,
        history.can_undo() ==> history.after_undo().end == history.undo_target(),
        history.can_undo() <==> exists|k: int|
            0 <= k < history.end && (#[trigger] history.actions[k]).is_tracked,
        history.can_undo() ==> {
            &&& 0 <= history.undo_target() < history.end
            &&& history.actions[history.undo_target()].is_tracked
            &&& forall|k: int|
                history.undo_target() < k < history.end ==> !(
                #[trigger] history.actions[k]).is_tracked
        },
{
    lemma_last_tracked(history.actions, history.end);
}

/// There is something to redo whenever an undone action is left, and a redo applies the group that
/// starts there.
pub proof fn redo_applies_a_group(history: HistoryModel)
    requires
        history.wf(),
    ensures
        history.after_redo().wf(),
        history.after_redo().actions == history.actions,
        history.after_redo().saved == history.saved,
        !history.can_redo() ==> history.after_redo() == history,
        history.after_redo().end <= history.actions.len(),
        history.after_redo().end < history.actions.len() ==> history.actions[
            history.after_redo().end
        ].is_tracked,
        history.can_redo() <==> history.end < history.actions.len(),
        history.can_redo() ==> {
            &&& history.redo_target() == history.end
            &&& history.end < history.after_redo().end
            &&& forall|k: int|
                history.end < k < history.after_redo().end ==> !(
                #[trigger] history.actions[k]).is_tracked
        },
{
    lemma_next_tracked(history.actions, history.end);
    if history.end < history.actions.len() {
        lemma_next_tracked(history.actions, history.end + 1);
    }
}

/// A redo takes back an undo: the same actions are applied, and it hands out the same action.
pub proof fn redo_after_undo(history: HistoryModel)
    requires
        history.wf(),
        history.can_undo(),
    ensures
        history.after_undo().can_redo(),
        history.after_undo().redo_target() == history.undo_target(),
        history.after_undo().after_redo() == (HistoryModel {
            undo_redo_layer: history.after_undo().undo_redo_layer,
            ..history
        }),
{
    lemma_last_tracked(history.actions, history.end);
    lemma_next_is(history.actions, history.undo_target() + 1, history.end);
}

/// An undo takes back a redo: the same actions are applied, and it hands out the same action.
pub proof fn undo_after_redo(history: HistoryModel)
    requires
        history.wf(),
        history.can_redo(),
    ensures
        history.after_redo().can_undo(),
        history.after_redo().undo_target() == history.redo_target(),
        history.after_redo().after_undo() == (HistoryModel {
            undo_redo_layer: history.after_redo().undo_redo_layer,
            ..history
        }),
{
    redo_applies_a_group(history);
    lemma_last_is(history.actions, history.after_redo().end, history.end);
}

/// After a push there is nothing to redo, unless the push was a repeated reset.
pub proof fn push_ends_redo(history: HistoryModel, action: ActionModel)
    requires
        history.wf(),
        !history.repeats_reset(action),
    ensures
        history.after_push(action).wf(),
        !history.after_push(action).can_redo(),
{
}

/// Pushing an action is applying it: the stack after the push is what the action makes of the
/// stack before. A repeated reset changes nothing, and need not be kept.
pub proof fn push_applies_action(
    base: Seq<LayerModel>,
    history: HistoryModel,
    action: ActionModel,
)
    requires
        history.wf(),
    ensures
        replay(base, history.after_push(action).applied()) == after_action(
            replay(base, history.applied()),
            action,
        ),
{
    let next = history.after_push(action);
    if history.repeats_reset(action) {
        let earlier = replay(base, history.applied().drop_last());
        let last = history.applied().last();
        assert(last == history.actions[history.end - 1]);
        assert(after_action(after_action(earlier, last), action) =~= after_action(earlier, last));
    } else {
        assert(next.applied() =~= history.applied().push(action));
        assert(next.applied().drop_last() =~= history.applied());
    }
}

/// An undo right after the push of a tracked action gives back the stack from before the push.
pub proof fn undo_reverts_push(base: Seq<LayerModel>, history: HistoryModel, action: ActionModel)
    requires
        history.wf(),
        action.is_tracked,
        !history.repeats_reset(action),
    ensures
        history.after_push(action).can_undo(),
        history.after_push(action).after_undo().applied() == history.applied(),
        replay(base, history.after_push(action).after_undo().applied()) == replay(
            base,
            history.applied(),
        ),
        !history.is_dirty() ==> !history.after_push(action).after_undo().is_dirty(),
{
    let next = history.after_push(action);
    assert(next.after_undo().applied() =~= history.applied());
}

/// One undo takes back a whole group: the tracked action that starts it and the untracked actions
/// pushed after it.
pub proof fn undo_reverts_group(
    base: Seq<LayerModel>,
    history: HistoryModel,
    head: ActionModel,
    rest: Seq<ActionModel>,
)
    requires
        history.wf(),
        head.is_tracked,
        !history.repeats_reset(head),
        forall|k: int| 0 <= k < rest.len() ==> !(#[trigger] rest[k]).is_tracked,
    ensures
        history.after_push(head).after_pushes(rest).can_undo(),
        history.after_push(head).after_pushes(rest).after_undo().applied() == history.applied(),
        replay(base, history.after_push(head).after_pushes(rest).after_undo().applied()) == replay(
            base,
            history.applied(),
        ),
{
    lemma_group_shape(history, head, rest);
    let all = history.after_push(head).after_pushes(rest);
    lemma_last_is(all.actions, all.end, history.end);
    assert(all.after_undo().applied() =~= history.applied());
}

proof fn lemma_group_shape(history: HistoryModel, head: ActionModel, rest: Seq<ActionModel>)
    requires
        history.wf(),
        head.is_tracked,
        !history.repeats_reset(head),
        forall|k: int| 0 <= k < rest.len() ==> !(#[trigger] rest[k]).is_tracked,
    ensures
        ({
            let all = history.after_push(head).after_pushes(rest);
            &&& all.wf()
            &&& all.end == all.actions.len()
            &&& all.end > history.end
            &&& all.actions.take(history.end) == history.applied()
            &&& all.actions[history.end] == head
            &&& forall|k: int| history.end < k < all.end ==> !(#[trigger] all.actions[k]).is_tracked
        }),
    decreases rest.len(),
{
    let all = history.after_push(head).after_pushes(rest);
    if rest.len() == 0 {
        assert(all.actions.take(history.end) =~= history.applied());
    } else {
        lemma_group_shape(history, head, rest.drop_last());
        let before = history.after_push(head).after_pushes(rest.drop_last());
        assert(!rest.last().is_tracked);
        if !before.repeats_reset(rest.last()) {
            assert(all.actions =~= before.actions.push(rest.last()));
            assert(all.actions.take(history.end) =~= before.actions.take(history.end));
        }
    }
}

/// A push leaves unsaved changes behind, unless it was a repeated reset.
pub proof fn push_makes_dirty(history: HistoryModel, action: ActionModel)
    requires
        history.wf(),
        !history.repeats_reset(action),
    ensures
        history.after_push(action).is_dirty(),
{
}

/// Unsaved changes always have a layer to name, whatever was pushed, undone, redone and saved.
pub proof fn unsaved_changes_name_a_layer(history: HistoryModel, action: ActionModel)
    requires
        history.wf(),
    ensures
        history.dirty_layer() is Some <==> history.is_dirty(),
        history.after_push(action).wf(),
        history.after_undo().wf(),
        history.after_redo().wf(),
        history.saved_here().wf(),
{
    undo_takes_back_a_group(history);
    redo_applies_a_group(history);
}

/// The actions done to a mask, with those that an undo took back.
pub struct History {
    actions: Vec<HistoryAction>,
    end: usize,
    not_dirty_pos: Option<usize>,
    undo_redo_layer: Option<AffectedLayer>,
}

impl View for History {
    type V = HistoryModel;

    closed spec fn view(&self) -> HistoryModel {
        HistoryModel {
            actions: action_models(self.actions@),
            end: self.end as int,
            saved: match self.not_dirty_pos {
                Some(at) => Some(at as int),
                None => None,
            },
            undo_redo_layer: self.undo_redo_layer,
        }
    }
}

impl Default for History {
    fn default() -> (history: Self)
        ensures
            history@ == (HistoryModel {
                actions: Seq::empty(),
                end: 0,
                saved: Some(0),
                undo_redo_layer: None,
            }),
    {
        let history = History {
            actions: Vec::new(),
            end: 0,
            not_dirty_pos: Some(0),
            undo_redo_layer: None,
        };
        assert(history@.actions =~= Seq::empty());
        history
    }
}

impl History {
    #[verifier::type_invariant]
    pub(crate) open spec fn inv(&self) -> bool {
        self@.wf()
    }

    /// The actions that are applied, oldest first.
    pub fn iter(&self) -> (applied: &[HistoryAction])
        ensures
            action_models(applied@) == self@.applied(),
            self@.wf(),
    {
        proof {
            use_type_invariant(self);
        }
        let applied = vstd::slice::slice_subrange(self.actions.as_slice(), 0, self.end);
        assert(action_models(applied@) =~= self@.applied());
        applied
    }

    /// How many actions are applied.
    pub fn end(&self) -> (end: usize)
        ensures
            end == self@.end,
    {
        self.end
    }

    /// How many actions are kept, those that were taken back counted.
    pub fn len(&self) -> (n: usize)
        ensures
            n == self@.actions.len(),
    {
        self.actions.len()
    }

    pub(crate) fn random_seed(&self) -> (seed: u16)
        ensures
            seed == self@.end % 0x1_0000,
            self@.wf(),
    {
        proof {
            use_type_invariant(self);
        }
        (self.end % 0x1_0000) as u16
    }

    /// Whether the applied actions differ from those of the last save.
    pub fn is_dirty(&self) -> (dirty: bool)
        ensures
            dirty == self@.is_dirty(),
    {
        match self.not_dirty_pos {
            Some(at) => at != self.end,
            None => true,
        }
    }

    /// Takes note of a save. Of unsaved changes, gives the layer of the last undo or redo, or else
    /// that of the last applied action.
    pub fn take_dirty(&mut self) -> (layer: Option<AffectedLayer>)
        ensures
            final(self)@ == old(self)@.saved_here(),
            layer == old(self)@.dirty_layer(),
            layer is Some <==> old(self)@.is_dirty(),
    {
        proof {
            use_type_invariant(&*self);
        }
        if self.is_dirty() {
            self.mark_not_dirty();
            proof {
                use_type_invariant(&*self);
            }
            match self.undo_redo_layer {
                Some(layer) => Some(layer),
                None => if self.end > 0 {
                    Some(self.actions[self.end - 1].layer)
                } else {
                    None
                },
            }
        } else {
            None
        }
    }

    /// Takes note of a save.
    pub fn mark_not_dirty(&mut self)
        ensures
            final(self)@ == old(self)@.saved_here(),
    {
        proof {
            use_type_invariant(&*self);
        }
        self.not_dirty_pos = Some(self.end);
    }

    /// Appends an action. What was taken back is gone, unless the action is a repeated reset, which
    /// is not kept.
    pub fn push(&mut self, new_action: HistoryAction)
        ensures
            final(self)@ == old(self)@.after_push(new_action@),
    {
        proof {
            use_type_invariant(&*self);
        }
        let ghost start = self@;
        if self.end > 0 {
            let last = &self.actions[self.end - 1];
            if matches!(last.kind, HistoryActionKind::Reset) && matches!(
                new_action.kind,
                HistoryActionKind::Reset
            ) && last.layer == new_action.layer {
                self.undo_redo_layer = None;
                return ;
            }
        }
        if let Some(at) = self.not_dirty_pos {
            if at > self.end {
                self.not_dirty_pos = None;
            }
        }
        let mut before = History::default();
        core::mem::swap(self, &mut before);
        let not_dirty_pos: Option<usize> = before.not_dirty_pos;
        let end: usize = before.end;
        let mut actions = before.actions;
        actions.truncate(end);
        actions.push(new_action);
        *self = History { end: actions.len(), actions, not_dirty_pos, undo_redo_layer: None };
        assert(self@.actions =~= start.applied().push(new_action@));
    }

    /// Applies the next group of undone actions again. Gives the action that starts the group;
    /// `None` where nothing was taken back.
    pub fn redo(&mut self) -> (action: Option<&HistoryAction>)
        ensures
            final(self)@ == old(self)@.after_redo(),
            action is Some <==> old(self)@.can_redo(),
            action matches Some(a) ==> a@ == old(self)@.actions[old(self)@.redo_target()],
    {
        proof {
            use_type_invariant(&*self);
            redo_applies_a_group(self@);
        }
        let ghost start = self@;
        if self.end >= self.actions.len() {
            return None;
        }
        let target: usize = self.end;
        let mut new_end: usize = target + 1;
        while new_end < self.actions.len() && !self.actions[new_end].is_tracked
            invariant
                target < new_end <= self.actions@.len(),
                action_models(self.actions@) == start.actions,
                next_tracked(start.actions, new_end as int) == next_tracked(
                    start.actions,
                    target + 1,
                ),
            decreases self.actions@.len() - new_end,
        {
            new_end += 1;
        }
        self.undo_redo_layer = Some(self.actions[target].layer);
        self.end = new_end;
        Some(&self.actions[target])
    }

    /// Takes back the last group of applied actions. Gives the action that starts the group;
    /// `None` where no applied action is tracked.
    pub fn undo(&mut self) -> (action: Option<&HistoryAction>)
        ensures
            final(self)@ == old(self)@.after_undo(),
            action is Some <==> old(self)@.can_undo(),
            action matches Some(a) ==> a@ == old(self)@.actions[old(self)@.undo_target()],
    {
        proof {
            use_type_invariant(&*self);
        }
        let ghost start = self@;
        let mut target: usize = self.end;
        while target > 0 && !self.actions[target - 1].is_tracked
            invariant
                target <= self.actions@.len(),
                action_models(self.actions@) == start.actions,
                last_tracked(start.actions, target as int) == last_tracked(
                    start.actions,
                    start.end,
                ),
            decreases target,
        {
            target -= 1;
        }
        if target == 0 {
            return None;
        }
        self.undo_redo_layer = Some(self.actions[target - 1].layer);
        self.end = target - 1;
        Some(&self.actions[target - 1])
    }
}

/// What an action does to each layer. Adding unites, replacing sets, clearing takes away and resetting
/// empties the affected layers; layers that the action names and that are missing are made, in the
/// color of their position, with empty ones below them. No other layer changes, and no layer changes
/// its color. Adding to no layer in particular makes one more, and a reset of that kind drops all.
pub proof fn action_effect(stack: Seq<LayerModel>, action: ActionModel, i: int)
    requires
        0 <= i,
    ensures
        ({
            let after = after_action(stack, action);
            let affected = action.layer.affects_layer(i);
            let can_make = match action.layer {
                AffectedLayer::Layer(_) => true,
                AffectedLayer::Range(_, Some(_)) => true,
                _ => false,
            };
            let had = if i < stack.len() {
                stack[i].pixels
            } else {
                Set::empty()
            };
            match action.kind {
                KindModel::Add(p) => {
                    if action.layer == AffectedLayer::Unspecified {
                        &&& after.len() == stack.len() + 1
                        &&& i < stack.len() ==> after[i] == stack[i]
                        &&& i == stack.len() ==> after[i].pixels == p && after[i].color
                            == position_color(i)
                    } else {
                        &&& affected && (i < stack.len() || can_make) ==> i < after.len()
                            && after[i].pixels == had.union(p)
                        &&& !affected && i < after.len() ==> after[i].pixels == had
                        &&& i < stack.len() ==> i < after.len() && after[i].color == stack[i].color
                        &&& stack.len() <= i < after.len() ==> after[i].color == position_color(i)
                        &&& stack.len() <= i == after.len() - 1 ==> affected
                    }
                },
                KindModel::Replace(p) => {
                    let all = action.layer == AffectedLayer::Unspecified;
                    &&& affected && (i < stack.len() || can_make) ==> i < after.len()
                        && after[i].pixels == p
                    &&& !affected && i < after.len() ==> after[i].pixels == had
                    &&& i < stack.len() ==> i < after.len() && after[i].color == stack[i].color
                    &&& stack.len() <= i < after.len() ==> after[i].color == position_color(i)
                    &&& stack.len() <= i == after.len() - 1 ==> affected && !all
                },
                KindModel::Clear(p) => {
                    &&& after.len() == stack.len()
                    &&& i < stack.len() ==> after[i].color == stack[i].color
                    &&& i < stack.len() && affected ==> after[i].pixels == had.difference(p)
                    &&& i < stack.len() && !affected ==> after[i].pixels == had
                },
                KindModel::Reset => {
                    if action.layer == AffectedLayer::Unspecified {
                        after.len() == 0
                    } else {
                        &&& after.len() == stack.len()
                        &&& i < stack.len() ==> after[i].color == stack[i].color
                        &&& i < stack.len() && affected ==> after[i].pixels == Set::<
                            (int, int),
                        >::empty()
                        &&& i < stack.len() && !affected ==> after[i].pixels == had
                    }
                },
            }
        }),
{
}

/// Actions are done one after the other, on the stack that everything started from.
pub proof fn actions_are_done_in_order(
    base: Seq<LayerModel>,
    actions: Seq<ActionModel>,
    last: ActionModel,
)
    ensures
        replay(base, Seq::empty()) == base,
        replay(base, actions.push(last)) == after_action(replay(base, actions), last),
{
    assert(actions.push(last).drop_last() =~= actions);
}

/// A push is kept behind the applied actions, and nothing is left behind it. The one push that is
/// not kept is a reset of the same layers as the reset that was applied last.
pub proof fn push_is_kept(history: HistoryModel, action: ActionModel)
    requires
        history.wf(),
    ensures
        ({
            let applied = history.applied();
            let after = history.after_push(action);
            let repeated = applied.len() > 0 && applied.last().kind is Reset && action.kind is Reset
                && applied.last().layer == action.layer;
            &&& !repeated ==> after.applied() == applied.push(action) && after.actions
                == after.applied()
            &&& repeated ==> after.applied() == applied && after.actions == history.actions
        }),
{
    let applied = history.applied();
    if history.end > 0 {
        assert(applied.last() == history.actions[history.end - 1]);
    }
    let after = history.after_push(action);
    if !history.repeats_reset(action) {
        assert(after.applied() =~= applied.push(action));
        assert(after.actions =~= after.applied());
    }
}

/// The layer of unsaved changes is that of the last change: of the action pushed last, or of the
/// tracked action that the last undo took back or the last redo did again.
pub proof fn unsaved_layer_is_of_the_last_change(history: HistoryModel, action: ActionModel)
    requires
        history.wf(),
    ensures
        ({
            let pushed = history.after_push(action);
            pushed.is_dirty() ==> pushed.dirty_layer() == Some(action.layer)
        }),
        ({
            let undone = history.after_undo();
            history.end > undone.end ==> undone.actions[undone.end].is_tracked && (undone.is_dirty()
                ==> undone.dirty_layer() == Some(history.actions[undone.end].layer))
        }),
        ({
            let redone = history.after_redo();
            history.end < redone.end ==> history.actions[history.end].is_tracked && (
            redone.is_dirty() ==> redone.dirty_layer() == Some(history.actions[history.end].layer))
        }),
{
    push_is_kept(history, action);
    undo_takes_back_a_group(history);
    redo_applies_a_group(history);
}

/// Something that is done to a history.
pub enum HistoryStep {
    Push(ActionModel),
    Undo,
    Redo,
}

/// The history after the first `n` steps.
pub open spec fn after_steps(history: HistoryModel, steps: Seq<HistoryStep>, n: int) -> HistoryModel
    decreases n,
{
    if n <= 0 {
        history
    } else {
        let before = after_steps(history, steps, n - 1);
        match steps[n - 1] {
            HistoryStep::Push(action) => before.after_push(action),
            HistoryStep::Undo => before.after_undo(),
            HistoryStep::Redo => before.after_redo(),
        }
    }
}

/// A history right after a save is not dirty. Whatever is pushed, undone and redone after it: where
/// the history says that there is nothing to save, the applied actions are those that were saved.
pub proof fn clean_is_as_saved(history: HistoryModel, steps: Seq<HistoryStep>, n: int)
    requires
        history.wf(),
        0 <= n <= steps.len(),
    ensures
        !history.saved_here().is_dirty(),
        history.saved_here().applied() == history.applied(),
        history.saved_here().actions == history.actions,
        ({
            let after = after_steps(history.saved_here(), steps, n);
            &&& after.wf()
            &&& !after.is_dirty() ==> after.applied() == history.applied()
        }),
{
    lemma_saved_prefix(history, steps, n);
    let after = after_steps(history.saved_here(), steps, n);
    if !after.is_dirty() {
        assert(after.applied() == history.applied());
    }
}

proof fn lemma_saved_prefix(history: HistoryModel, steps: Seq<HistoryStep>, n: int)
    requires
        history.wf(),
        0 <= n <= steps.len(),
    ensures
        ({
            let after = after_steps(history.saved_here(), steps, n);
            &&& after.wf()
            &&& after.saved matches Some(at) ==> at == history.end && at <= after.actions.len()
                && after.actions.take(at) == history.applied()
        }),
    decreases n,
{
    if n > 0 {
        lemma_saved_prefix(history, steps, n - 1);
        let before = after_steps(history.saved_here(), steps, n - 1);
        let after = after_steps(history.saved_here(), steps, n);
        match steps[n - 1] {
            HistoryStep::Push(action) => {
                unsaved_changes_name_a_layer(before, action);
                if let Some(at) = after.saved {
                    if !before.repeats_reset(action) {
                        assert(after.actions.take(at) =~= before.actions.take(at));
                    }
                }
            },
            HistoryStep::Undo => {
                undo_takes_back_a_group(before);
            },
            HistoryStep::Redo => {
                redo_applies_a_group(before);
            },
        }
    }
}

/// An untracked action is of the group before it: it does not change whether there is something to
/// undo, and an undo after it goes back as far as it would have without it.
pub proof fn untracked_push_joins_the_group(history: HistoryModel, action: ActionModel)
    requires
        history.wf(),
        !action.is_tracked,
    ensures
        history.after_push(action).can_undo() <==> history.can_undo(),
        history.can_undo() ==> history.after_push(action).after_undo().applied()
            == history.after_undo().applied(),
{
    let next = history.after_push(action);
    if !history.repeats_reset(action) {
        lemma_last_tracked(history.actions, history.end);
        lemma_last_tracked(next.actions, next.end);
        assert forall|k: int| 0 <= k < history.end implies #[trigger] next.actions[k]
            == history.actions[k] by {}
        assert(next.actions[history.end] == action);
        if history.can_undo() {
            lemma_last_is(next.actions, next.end, history.undo_target());
            assert(next.after_undo().applied() =~= history.after_undo().applied());
        } else if next.can_undo() {
            assert(history.actions[next.undo_target()].is_tracked);
        }
    } else {
        assert(next.after_undo().applied() =~= history.after_undo().applied());
    }
}

/// Actions are equal where they do the same, to the same layers, and both start an undo group or
/// neither does.
pub proof fn equal_actions_do_the_same(a: HistoryAction, b: HistoryAction)
    ensures
        HistoryAction::obeys_eq_spec(),
        a.eq_spec(&b) <==> a.kind@ == b.kind@ && a.layer == b.layer && a.is_tracked == b.is_tracked,
{
}

/// What an action is taken for is what it holds.
pub proof fn actions_are_what_they_hold(
    add: HistoryActionAdd,
    clear: HistoryActionClear,
    replace: HistoryActionReplace,
    action: HistoryAction,
)
    ensures
        HistoryActionKind::Add(add)@ == KindModel::Add(add.pixel_area@),
        HistoryActionKind::Clear(clear)@ == KindModel::Clear(clear.ranges@),
        HistoryActionKind::Replace(replace)@ == KindModel::Replace(replace.pixel_area@),
        HistoryActionKind::Reset@ == KindModel::Reset,
        action@.kind == action.kind@,
        action@.layer == action.layer,
        action@.is_tracked == action.is_tracked,
{
}

} // verus!
