//! Edits of a mask, put together step by step: which layer, whether undo stops there, and whether
//! new pixels may overlap those that are there.
use crate::affected_layer::AffectedLayer;
use crate::history::{
    after_action, ActionModel, HistoryAction, HistoryActionAdd, HistoryActionClear, HistoryActionKind, KindModel,
};
use crate::mask::{MaskImage, MaskModel};
use crate::ordered_spans::{all_pixels, bare, ordered_spans};
use crate::pixel_area::LayerModel;
use crate::ranges::SortedRanges;
use crate::span::{pixels, Span};
use vstd::prelude::*;

verus! {

/// An edit that adds pixels.
pub struct AddAction {
    /// Whether pixels may be added that another layer has already.
    pub overlapping: bool,
}

/// An edit that is not done yet.
pub struct HistoryActionBuilder<'a, A> {
    pub mask: &'a mut MaskImage,
    pub layer: AffectedLayer,
    /// Whether the edit starts an undo group.
    pub is_tracked: bool,
    pub action: A,
}

impl MaskModel {
    /// The mask after adding pixels. Without overlap only those count that no layer has; where
    /// none is left, nothing happens.
    pub open spec fn after_add(
        self,
        layer: AffectedLayer,
        is_tracked: bool,
        overlapping: bool,
        added: Set<(int, int)>,
    ) -> MaskModel {
        let counted = if overlapping {
            added
        } else {
            added.difference(all_pixels(self.stack()))
        };
        if !overlapping && counted == Set::<(int, int)>::empty() {
            self
        } else {
            self.after_edit(ActionModel { kind: KindModel::Add(counted), layer, is_tracked })
        }
    }

    /// The layers after adding pixels.
    pub open spec fn stack_after_add(
        self,
        layer: AffectedLayer,
        overlapping: bool,
        added: Set<(int, int)>,
    ) -> Seq<LayerModel> {
        let counted = if overlapping {
            added
        } else {
            added.difference(all_pixels(self.stack()))
        };
        if !overlapping && counted == Set::<(int, int)>::empty() {
            self.stack()
        } else {
            after_action(
                self.stack(),
                ActionModel { kind: KindModel::Add(counted), layer, is_tracked: true },
            )
        }
    }

    pub open spec fn after_clear(
        self,
        layer: AffectedLayer,
        is_tracked: bool,
        cleared: Set<(int, int)>,
    ) -> MaskModel {
        self.after_edit(ActionModel { kind: KindModel::Clear(cleared), layer, is_tracked })
    }

    pub open spec fn after_reset(self, layer: AffectedLayer, is_tracked: bool) -> MaskModel {
        self.after_edit(ActionModel { kind: KindModel::Reset, layer, is_tracked })
    }
}

/// Settles what an edit is for.
pub trait MaskActionBuilder: Sized {
    type Builder;

    type AddBuilder;

    /// An edit of the given layers.
    fn on_layer(self, layer: AffectedLayer) -> Self::Builder;

    /// An edit at which undo does not stop.
    fn without_tracking(self) -> Self::Builder;

    /// An edit that adds pixels, those that other layers have or not.
    fn keep_overlapping(self, overlapping: bool) -> Self::AddBuilder;
}

/// Does an edit.
pub trait MaskDefaultActions: Sized {
    /// Whether the mask is in order.
    spec fn ready(self) -> bool;

    /// Adds the pixels, those that other layers have too.
    fn add(self, ranges: SortedRanges)
        requires
            self.ready(),
    ;

    /// Takes the pixels of the runs from the layers.
    fn clear(self, ranges: &[Span])
        requires
            self.ready(),
            ranges@.len() > 0,
            forall|i: int| 0 <= i < ranges@.len() ==> (#[trigger] ranges@[i]).wf(),
    ;

    /// Empties the layers, or drops all of them.
    fn reset(self)
        requires
            self.ready(),
    ;
}

impl<'a> MaskActionBuilder for &'a mut MaskImage {
    type Builder = HistoryActionBuilder<'a, ()>;

    type AddBuilder = HistoryActionBuilder<'a, AddAction>;

    fn on_layer(self, layer: AffectedLayer) -> (builder: HistoryActionBuilder<'a, ()>)
        ensures
            *builder.mask == *old(self),
            *final(builder.mask) == *final(self),
            builder.layer == layer,
            builder.is_tracked,
    {
        HistoryActionBuilder { mask: self, layer, is_tracked: true, action: () }
    }

    fn without_tracking(self) -> (builder: HistoryActionBuilder<'a, ()>)
        ensures
            *builder.mask == *old(self),
            *final(builder.mask) == *final(self),
            builder.layer == AffectedLayer::Unspecified,
            !builder.is_tracked,
    {
        HistoryActionBuilder {
            mask: self,
            layer: AffectedLayer::Unspecified,
            is_tracked: false,
            action: (),
        }
    }

    fn keep_overlapping(self, overlapping: bool) -> (builder: HistoryActionBuilder<'a, AddAction>)
        ensures
            *builder.mask == *old(self),
            *final(builder.mask) == *final(self),
            builder.layer == AffectedLayer::Unspecified,
            builder.is_tracked,
            builder.action.overlapping == overlapping,
    {
        HistoryActionBuilder {
            mask: self,
            layer: AffectedLayer::Unspecified,
            is_tracked: true,
            action: AddAction { overlapping },
        }
    }
}

impl<'a, A> MaskActionBuilder for HistoryActionBuilder<'a, A> {
    type Builder = HistoryActionBuilder<'a, A>;

    type AddBuilder = HistoryActionBuilder<'a, AddAction>;

    fn on_layer(self, layer: AffectedLayer) -> (builder: HistoryActionBuilder<'a, A>)
        ensures
            *builder.mask == *old(self.mask),
            *final(builder.mask) == *final(self.mask),
            builder.layer == layer,
            builder.is_tracked == self.is_tracked,
            builder.action == self.action,
    {
        HistoryActionBuilder {
            mask: self.mask,
            layer,
            is_tracked: self.is_tracked,
            action: self.action,
        }
    }

    fn without_tracking(self) -> (builder: HistoryActionBuilder<'a, A>)
        ensures
            *builder.mask == *old(self.mask),
            *final(builder.mask) == *final(self.mask),
            builder.layer == self.layer,
            !builder.is_tracked,
            builder.action == self.action,
    {
        HistoryActionBuilder {
            mask: self.mask,
            layer: self.layer,
            is_tracked: false,
            action: self.action,
        }
    }

    fn keep_overlapping(self, overlapping: bool) -> (builder: HistoryActionBuilder<'a, AddAction>)
        ensures
            *builder.mask == *old(self.mask),
            *final(builder.mask) == *final(self.mask),
            builder.layer == self.layer,
            builder.is_tracked == self.is_tracked,
            builder.action.overlapping == overlapping,
    {
        HistoryActionBuilder {
            mask: self.mask,
            layer: self.layer,
            is_tracked: self.is_tracked,
            action: AddAction { overlapping },
        }
    }
}

impl<'a> MaskDefaultActions for &'a mut MaskImage {
    open spec fn ready(self) -> bool {
        (*self).wf()
    }

    fn add(self, ranges: SortedRanges)
        ensures
            final(self).wf(),
            final(self)@ == old(self)@.after_add(
                AffectedLayer::Unspecified,
                true,
                true,
                ranges@,
            ),
            final(self)@.stack() == old(self)@.stack_after_add(
                AffectedLayer::Unspecified,
                true,
                ranges@,
            ),
    {
        self.keep_overlapping(true).add(ranges);
    }

    fn clear(self, ranges: &[Span])
        ensures
            final(self).wf(),
            final(self)@ == old(self)@.after_clear(
                AffectedLayer::Unspecified,
                true,
                pixels(ranges@),
            ),
            final(self)@.stack() == after_action(
                old(self)@.stack(),
                (ActionModel {
                    kind: KindModel::Clear(pixels(ranges@)),
                    layer: AffectedLayer::Unspecified,
                    is_tracked: true,
                }),
            ),
    {
        self.on_layer(AffectedLayer::Unspecified).clear(ranges);
    }

    fn reset(self)
        ensures
            final(self).wf(),
            final(self)@ == old(self)@.after_reset(AffectedLayer::Unspecified, true),
            final(self)@.stack() == Seq::<LayerModel>::empty(),
    {
        self.on_layer(AffectedLayer::Unspecified).reset();
    }
}

impl<'a> MaskDefaultActions for HistoryActionBuilder<'a, ()> {
    open spec fn ready(self) -> bool {
        (*self.mask).wf()
    }

    fn add(self, ranges: SortedRanges)
        ensures
            final(self.mask).wf(),
            final(self.mask)@ == old(self.mask)@.after_add(
                self.layer,
                self.is_tracked,
                true,
                ranges@,
            ),
            final(self.mask)@.stack() == old(self.mask)@.stack_after_add(
                self.layer,
                true,
                ranges@,
            ),
    {
        self.keep_overlapping(true).add(ranges);
    }

    fn clear(self, ranges: &[Span])
        ensures
            final(self.mask).wf(),
            final(self.mask)@ == old(self.mask)@.after_clear(
                self.layer,
                self.is_tracked,
                pixels(ranges@),
            ),
            final(self.mask)@.stack() == after_action(
                old(self.mask)@.stack(),
                (ActionModel {
                    kind: KindModel::Clear(pixels(ranges@)),
                    layer: self.layer,
                    is_tracked: self.is_tracked,
                }),
            ),
    {
        if let Some(ranges) = SortedRanges::try_from_span_iter(ranges) {
            self.mask.add_history_action(
                HistoryAction {
                    kind: HistoryActionKind::Clear(HistoryActionClear { ranges }),
                    layer: self.layer,
                    is_tracked: self.is_tracked,
                },
            );
        }
    }

    fn reset(self)
        ensures
            final(self.mask).wf(),
            final(self.mask)@ == old(self.mask)@.after_reset(self.layer, self.is_tracked),
            final(self.mask)@.stack() == after_action(
                old(self.mask)@.stack(),
                (ActionModel {
                    kind: KindModel::Reset,
                    layer: self.layer,
                    is_tracked: self.is_tracked,
                }),
            ),
    {
        self.mask.add_history_action(
            HistoryAction {
                kind: HistoryActionKind::Reset,
                layer: self.layer,
                is_tracked: self.is_tracked,
            },
        );
    }
}

impl<'a> HistoryActionBuilder<'a, AddAction> {
    /// Adds the pixels. Without overlap, those that no layer has; where there is none, the mask
    /// stays as it is.
    pub fn add(self, ranges: SortedRanges)
        requires
            old(self.mask).wf(),
        ensures
            final(self.mask).wf(),
            final(self.mask)@ == old(self.mask)@.after_add(
                self.layer,
                self.is_tracked,
                self.action.overlapping,
                ranges@,
            ),
            final(self.mask)@.stack() == old(self.mask)@.stack_after_add(
                self.layer,
                self.action.overlapping,
                ranges@,
            ),
    {
        let pixel_area = if self.action.overlapping {
            ranges
        } else {
            match without_covered(ranges, self.mask) {
                Some(rest) => rest,
                None => {
                    return ;
                },
            }
        };
        self.mask.add_history_action(
            HistoryAction {
                kind: HistoryActionKind::Add(HistoryActionAdd { pixel_area }),
                layer: self.layer,
                is_tracked: self.is_tracked,
            },
        );
    }
}

/// The pixels that no layer of the mask has.
fn without_covered(ranges: SortedRanges, mask: &MaskImage) -> (rest: Option<SortedRanges>)
    requires
        mask.wf(),
    ensures
        rest is Some <==> ranges@.difference(all_pixels(mask@.stack())) != Set::<
            (int, int),
        >::empty(),
        rest matches Some(r) ==> r@ == ranges@.difference(all_pixels(mask@.stack())),
{
    let entries = ordered_spans(mask.subgroups_stack());
    let mut spans: Vec<Span> = Vec::new();
    let mut i: usize = 0;
    while i < entries.len()
        invariant
            i <= entries@.len(),
            spans@ == bare(entries@).take(i as int),
            forall|k: int| 0 <= k < entries@.len() ==> (#[trigger] entries@[k]).1.wf(),
            forall|k: int| 0 <= k < spans@.len() ==> (#[trigger] spans@[k]).wf(),
        decreases entries@.len() - i,
    {
        spans.push(entries[i].1);
        assert(bare(entries@).take(i + 1) =~= bare(entries@).take(i as int).push(
            entries@[i as int].1,
        ));
        i += 1;
    }
    assert(spans@ =~= bare(entries@));
    match SortedRanges::try_from_span_iter(spans.as_slice()) {
        Some(covered) => ranges.subtract(&covered),
        None => {
            proof {
                use_type_invariant(&ranges);
                crate::pixel_area::lemma_filled(ranges);
                assert forall|p: (int, int)| !pixels(spans@).contains(p) by {}
                assert(ranges@.difference(pixels(spans@)) =~= ranges@);
            }
            Some(ranges)
        },
    }
}

/// Adding without overlap keeps the layers that are there. A new layer shares no pixel with any of
/// them, and between them all they have exactly the pixels they had and the added ones.
pub proof fn added_without_overlap(mask: MaskModel, is_tracked: bool, added: Set<(int, int)>)
    requires
        mask.history.wf(),
    ensures
        ({
            let before = mask.stack();
            let after = mask.after_add(
                AffectedLayer::Unspecified,
                is_tracked,
                false,
                added,
            ).stack();
            &&& after == before || after == before.push(after.last())
            &&& after != before ==> forall|i: int|
                0 <= i < before.len() ==> (#[trigger] before[i]).pixels.disjoint(
                    after.last().pixels,
                )
            &&& all_pixels(after) == all_pixels(before).union(added)
        }),
{
    let before = mask.stack();
    let counted = added.difference(all_pixels(before));
    let after = mask.after_add(AffectedLayer::Unspecified, is_tracked, false, added).stack();
    if counted == Set::<(int, int)>::empty() {
        assert forall|p: (int, int)| added.contains(p) implies all_pixels(before).contains(p) by {
            assert(!counted.contains(p));
        }
        assert(all_pixels(before) =~= all_pixels(before).union(added));
    } else {
        let action = ActionModel {
            kind: KindModel::Add(counted),
            layer: AffectedLayer::Unspecified,
            is_tracked,
        };
        crate::history::push_applies_action(mask.base, mask.history, action);
        assert(after.last().pixels == counted);
        assert forall|p: (int, int)|
            all_pixels(after).contains(p) == all_pixels(before).union(added).contains(p) by {
            if all_pixels(after).contains(p) {
                let i = choose|i: int|
                    0 <= i < after.len() && (#[trigger] after[i]).pixels.contains(p);
                if i < before.len() {
                    assert(before[i].pixels.contains(p));
                }
            }
            if all_pixels(before).contains(p) {
                let i = choose|i: int|
                    0 <= i < before.len() && (#[trigger] before[i]).pixels.contains(p);
                assert(after[i].pixels.contains(p));
            } else if added.contains(p) {
                assert(after[before.len() as int].pixels.contains(p));
            }
        }
        assert(all_pixels(after) =~= all_pixels(before).union(added));
    }
}

/// Adding pixels, whatever layers the edit names. A pixel that a layer gets is one of the added ones,
/// and without overlap one that no layer had. Each added pixel that counts is then on every named
/// layer: on a new one where none is named, else on those that are there or that the edit makes. No
/// layer loses a pixel.
pub proof fn added_pixels_are_on_the_named_layers(
    mask: MaskModel,
    layer: AffectedLayer,
    is_tracked: bool,
    overlapping: bool,
    added: Set<(int, int)>,
    i: int,
    p: (int, int),
)
    requires
        mask.history.wf(),
        0 <= i,
    ensures
        ({
            let before = mask.stack();
            let after = mask.after_add(layer, is_tracked, overlapping, added).stack();
            let had = i < before.len() && before[i].pixels.contains(p);
            let has = i < after.len() && after[i].pixels.contains(p);
            let free = forall|j: int|
                0 <= j < before.len() ==> !(#[trigger] before[j]).pixels.contains(p);
            let named = match layer {
                AffectedLayer::Unspecified => i == before.len(),
                AffectedLayer::Layer(index) => i == index,
                AffectedLayer::Range(start, Some(end)) => start <= i < end,
                AffectedLayer::Range(start, None) => start <= i < before.len(),
            };
            &&& had ==> has
            &&& has && !had ==> added.contains(p) && named && (overlapping || free)
            &&& added.contains(p) && named && (overlapping || free) ==> has
            &&& after == mask.stack_after_add(layer, overlapping, added)
        }),
{
    let before = mask.stack();
    let after = mask.after_add(layer, is_tracked, overlapping, added).stack();
    let counted = if overlapping {
        added
    } else {
        added.difference(all_pixels(before))
    };
    if overlapping || counted != Set::<(int, int)>::empty() {
        let action = ActionModel { kind: KindModel::Add(counted), layer, is_tracked };
        crate::history::push_applies_action(mask.base, mask.history, action);
        crate::history::action_effect(before, action, i);
    } else {
        assert(!counted.contains(p));
    }
}

/// Clearing pixels takes exactly them from the affected layers and changes no other, and a reset
/// empties the affected layers, or drops all of them. Colors and the number of layers stay.
pub proof fn cleared_pixels_are_gone(
    mask: MaskModel,
    layer: AffectedLayer,
    is_tracked: bool,
    cleared: Set<(int, int)>,
    i: int,
    p: (int, int),
)
    requires
        mask.history.wf(),
        0 <= i < mask.stack().len(),
    ensures
        ({
            let before = mask.stack();
            let after = mask.after_clear(layer, is_tracked, cleared).stack();
            let emptied = mask.after_reset(layer, is_tracked).stack();
            &&& after.len() == before.len()
            &&& after[i].color == before[i].color
            &&& after[i].pixels.contains(p) <==> before[i].pixels.contains(p) && !(
            layer.affects_layer(i) && cleared.contains(p))
            &&& layer == AffectedLayer::Unspecified ==> emptied.len() == 0
            &&& layer != AffectedLayer::Unspecified ==> emptied.len() == before.len()
                && emptied[i].color == before[i].color && (emptied[i].pixels.contains(p)
                <==> before[i].pixels.contains(p) && !layer.affects_layer(i))
        }),
{
    let clear = ActionModel { kind: KindModel::Clear(cleared), layer, is_tracked };
    crate::history::push_applies_action(mask.base, mask.history, clear);
    crate::history::action_effect(mask.stack(), clear, i);
    let reset = ActionModel { kind: KindModel::Reset, layer, is_tracked };
    crate::history::push_applies_action(mask.base, mask.history, reset);
    crate::history::action_effect(mask.stack(), reset, i);
}

/// An edit put together step by step changes nothing of a mask but its layers: not its size, the
/// layers under the edits, its settings or which layer is active. It asks for a new image where it
/// did something.
pub proof fn edits_touch_the_layers_alone(
    mask: MaskModel,
    layer: AffectedLayer,
    is_tracked: bool,
    overlapping: bool,
    pixels: Set<(int, int)>,
)
    ensures
        ({
            let added = mask.after_add(layer, is_tracked, overlapping, pixels);
            &&& added.history != mask.history ==> added.redraw
            &&& added == (MaskModel { history: added.history, redraw: added.redraw, ..mask })
        }),
        ({
            let cleared = mask.after_clear(layer, is_tracked, pixels);
            &&& cleared.redraw
            &&& cleared == (MaskModel { history: cleared.history, redraw: cleared.redraw, ..mask })
        }),
        ({
            let emptied = mask.after_reset(layer, is_tracked);
            &&& emptied.redraw
            &&& emptied == (MaskModel { history: emptied.history, redraw: emptied.redraw, ..mask })
        }),
{
}

/// An edit goes to the history as what it is: for the layers it names, and tracked or not as was
/// asked. Where it is tracked, one undo takes it back; where it is not, an undo goes back as far as it
/// would have without it.
pub proof fn edits_are_tracked_as_asked(
    mask: MaskModel,
    layer: AffectedLayer,
    is_tracked: bool,
    overlapping: bool,
    pixels: Set<(int, int)>,
)
    requires
        mask.history.wf(),
    ensures
        ({
            let added = mask.after_add(layer, is_tracked, overlapping, pixels);
            added != mask ==> {
                &&& added.history.applied().drop_last() == mask.history.applied()
                &&& added.history.applied().last().layer == layer
                &&& added.history.applied().last().is_tracked == is_tracked
                &&& is_tracked ==> added.after_undo_key(false).stack() == mask.stack()
                &&& !is_tracked ==> (added.history.can_undo() <==> mask.history.can_undo())
                &&& !is_tracked ==> added.after_undo_key(false).history.applied()
                    == if mask.history.can_undo() {
                    mask.after_undo_key(false).history.applied()
                } else {
                    added.history.applied()
                }
            }
        }),
        ({
            let cleared = mask.after_clear(layer, is_tracked, pixels);
            &&& cleared.history.applied().drop_last() == mask.history.applied()
            &&& cleared.history.applied().last().layer == layer
            &&& cleared.history.applied().last().is_tracked == is_tracked
            &&& is_tracked ==> cleared.after_undo_key(false).stack() == mask.stack()
            &&& !is_tracked ==> (cleared.history.can_undo() <==> mask.history.can_undo())
            &&& !is_tracked ==> cleared.after_undo_key(false).history.applied()
                == if mask.history.can_undo() {
                mask.after_undo_key(false).history.applied()
            } else {
                cleared.history.applied()
            }
        }),
        ({
            let emptied = mask.after_reset(layer, is_tracked);
            emptied.history.applied() != mask.history.applied() ==> {
                &&& emptied.history.applied().drop_last() == mask.history.applied()
                &&& emptied.history.applied().last().layer == layer
                &&& emptied.history.applied().last().is_tracked == is_tracked
                &&& is_tracked ==> emptied.after_undo_key(false).stack() == mask.stack()
            }
        }),
{
    let counted = if overlapping {
        pixels
    } else {
        pixels.difference(all_pixels(mask.stack()))
    };
    lemma_tracked_as_asked(
        mask,
        ActionModel { kind: KindModel::Add(counted), layer, is_tracked },
    );
    lemma_tracked_as_asked(
        mask,
        ActionModel { kind: KindModel::Clear(pixels), layer, is_tracked },
    );
    lemma_tracked_as_asked(mask, ActionModel { kind: KindModel::Reset, layer, is_tracked });
}

proof fn lemma_tracked_as_asked(mask: MaskModel, action: ActionModel)
    requires
        mask.history.wf(),
    ensures
        ({
            let after = mask.after_edit(action);
            let applied = after.history.applied();
            &&& mask.history.repeats_reset(action) ==> applied == mask.history.applied()
            &&& !mask.history.repeats_reset(action) ==> {
                &&& applied == mask.history.applied().push(action)
                &&& applied.drop_last() == mask.history.applied()
                &&& applied.last() == action
                &&& action.is_tracked ==> after.after_undo_key(false).stack() == mask.stack()
            }
            &&& !action.is_tracked ==> (after.history.can_undo() <==> mask.history.can_undo())
            &&& !action.is_tracked && mask.history.can_undo() ==> after.after_undo_key(
                false,
            ).history.applied() == mask.after_undo_key(false).history.applied()
        }),
{
    crate::history::push_is_kept(mask.history, action);
    if !mask.history.repeats_reset(action) {
        let applied = mask.after_edit(action).history.applied();
        assert(applied =~= mask.history.applied().push(action));
        assert(applied.drop_last() =~= mask.history.applied());
        if action.is_tracked {
            crate::mask::undo_reverts_edit(mask, action);
        }
    }
    if !action.is_tracked {
        crate::history::untracked_push_joins_the_group(mask.history, action);
    }
}

} // verus!
