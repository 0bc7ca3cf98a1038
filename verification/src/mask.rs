//! A mask image: a base stack of layers and the history of edits applied to it.
use crate::affected_layer::AffectedLayer;
use crate::color::{random_color_from_seed, seed_color};
use crate::history::{
    after_action, push_applies_action, replay, ActionModel, History, HistoryAction,
    HistoryActionKind, HistoryModel, KindModel,
};
use crate::layer_stack::{is_filled, PixelAreaStack};
use crate::ordered_spans::{merged, ordered_spans};
use crate::pixel_area::{blank_layer, layer_models, padded, LayerModel, PixelArea};
use crate::ranges::Roi;
use crate::render::{draw_stack, image_of};
use crate::settings::MaskSettings;
use crate::span::Span;
use vstd::prelude::*;

verus! {

/// What a mask image holds.
#[verifier::ext_equal]
pub struct MaskModel {
    pub size: [usize; 2],
    pub base: Seq<LayerModel>,
    pub history: HistoryModel,
    /// Whether the layers changed since the image was last drawn.
    pub redraw: bool,
    /// Whether the drawn image is shown; `None` while it was never drawn.
    pub texture_visible: Option<bool>,
    pub settings: MaskSettings,
    pub active_layer: Option<usize>,
    pub hover_layer: Option<usize>,
}

impl MaskModel {
    /// The layers after all applied actions.
    pub open spec fn stack(self) -> Seq<LayerModel> {
        replay(self.base, self.history.applied())
    }

    pub open spec fn after_edit(self, action: ActionModel) -> MaskModel {
        MaskModel { history: self.history.after_push(action), redraw: true, ..self }
    }

    pub open spec fn with_active_layer(self, index: Option<usize>) -> MaskModel {
        if self.active_layer != index {
            MaskModel { active_layer: index, redraw: true, ..self }
        } else {
            self
        }
    }

    /// Undo or redo, where there is something to take back or to do again.
    pub open spec fn after_undo_key(self, redo: bool) -> MaskModel {
        if redo && self.history.can_redo() {
            MaskModel { history: self.history.after_redo(), redraw: true, ..self }
        } else if !redo && self.history.can_undo() {
            MaskModel { history: self.history.after_undo(), redraw: true, ..self }
        } else {
            self
        }
    }

    /// The image of the layers.
    pub open spec fn image(self) -> Seq<u32> {
        image_of(
            self.stack(),
            self.settings,
            self.active_layer,
            self.size[0] as int,
            (self.size[0] * self.size[1]) as nat,
            self.stack().len() as int,
        )
    }
}

/// Whether `found` is the uppermost layer that has the pixel, or `None` where no layer has it.
pub open spec fn is_topmost_at(
    stack: Seq<LayerModel>,
    x: int,
    y: int,
    found: Option<usize>,
) -> bool {
    match found {
        Some(i) => {
            &&& i < stack.len()
            &&& stack[i as int].pixels.contains((x, y))
            &&& forall|j: int|
                i < j < stack.len() ==> !(#[trigger] stack[j]).pixels.contains((x, y))
        },
        None => forall|j: int|
            0 <= j < stack.len() ==> !(#[trigger] stack[j]).pixels.contains((x, y)),
    }
}

/// An action is inside an image where all pixels it names are.
pub open spec fn action_fits(kind: KindModel, size: [usize; 2]) -> bool {
    match kind {
        KindModel::Add(p) => region_fits(p, size),
        KindModel::Clear(p) => region_fits(p, size),
        KindModel::Replace(p) => region_fits(p, size),
        KindModel::Reset => true,
    }
}

/// Whether a region lies in an image of this size.
pub open spec fn region_fits(region: Set<(int, int)>, size: [usize; 2]) -> bool {
    forall|x: int, y: int| #[trigger] region.contains((x, y)) ==> x < size[0] && y < size[1]
}

/// What is to be shown of a mask.
pub struct MaskSources {
    /// The pixels to upload in place of the ones before, where the mask changed: premultiplied
    /// RGBA, red in the lowest byte, row by row.
    pub upload: Option<Vec<u32>>,
    /// Whether the uploaded image is shown.
    pub visible: bool,
}

/// A stack of layers with a history of edits.
pub struct MaskImage {
    size: [usize; 2],
    base: PixelAreaStack,
    applied: AppliedPixelAreaStack,
    history: History,
    texture_visible: Option<bool>,
    settings: MaskSettings,
    active_layer: Option<usize>,
    hover_layer: Option<usize>,
}

impl View for MaskImage {
    type V = MaskModel;

    closed spec fn view(&self) -> MaskModel {
        MaskModel {
            size: self.size,
            base: self.base@,
            history: self.history@,
            redraw: self.applied.requires_redraw,
            texture_visible: self.texture_visible,
            settings: self.settings,
            active_layer: self.active_layer,
            hover_layer: self.hover_layer,
        }
    }
}

/// The layers with the history applied.
struct AppliedPixelAreaStack {
    requires_redraw: bool,
    stack: PixelAreaStack,
}

impl AppliedPixelAreaStack {
    fn new(base: &PixelAreaStack, history: &History) -> (applied: AppliedPixelAreaStack)
        ensures
            applied.stack@ == replay(base@, history@.applied()),
            !applied.requires_redraw,
    {
        let actions = history.iter();
        let mut layers = base.to_layer_vec();
        let ghost models = history@.applied();
        let mut i: usize = 0;
        assert(models.take(0) =~= Seq::empty());
        while i < actions.len()
            invariant
                i <= actions@.len(),
                models == crate::history::action_models(actions@),
                layer_models(layers@) == replay(base@, models.take(i as int)),
            decreases actions@.len() - i,
        {
            layers = actions[i].apply(layers);
            proof {
                let next = models.take(i + 1);
                assert(next.drop_last() =~= models.take(i as int));
                assert(next.last() == actions@[i as int]@);
            }
            i += 1;
        }
        assert(models.take(i as int) =~= models);
        AppliedPixelAreaStack {
            requires_redraw: false,
            stack: PixelAreaStack::from_layer_vec(layers),
        }
    }

    fn mark_redraw(&mut self, base: &PixelAreaStack, history: &History)
        ensures
            final(self).stack@ == replay(base@, history@.applied()),
            final(self).requires_redraw,
    {
        *self = AppliedPixelAreaStack::new(base, history);
        self.requires_redraw = true;
    }
}

impl MaskImage {
    /// The undo groups of the history are whole, and the applied layers are what the history makes
    /// of the base.
    pub open spec fn wf(&self) -> bool {
        self@.history.wf() && self.is_applied()
    }

    pub closed spec fn is_applied(&self) -> bool {
        self.applied.stack@ == self@.stack()
    }

    pub fn new(size: [usize; 2], base: PixelAreaStack, history: History) -> (mask: MaskImage)
        ensures
            mask.wf(),
            mask@ == (MaskModel {
                size,
                base: base@,
                history: history@,
                redraw: false,
                texture_visible: None,
                settings: (MaskSettings { default_opacity: 128, active_opacity: 200 }),
                active_layer: None,
                hover_layer: None,
            }),
    {
        let applied = AppliedPixelAreaStack::new(&base, &history);
        proof {
            use_type_invariant(&history);
        }
        MaskImage {
            size,
            base,
            applied,
            history,
            texture_visible: None,
            settings: MaskSettings::default(),
            active_layer: None,
            hover_layer: None,
        }
    }

    pub fn set_settings(&mut self, settings: MaskSettings)
        requires
            old(self).wf(),
        ensures
            final(self).wf(),
            final(self)@ == (MaskModel { settings, ..old(self)@ }),
    {
        self.settings = settings;
    }

    /// The width and height of the image.
    pub fn size(&self) -> (size: [usize; 2])
        ensures
            size == self@.size,
    {
        self.size
    }

    /// A number that changes with each layer of the base and each applied action.
    pub fn random_seed(&self) -> (seed: u16)
        ensures
            seed == (self@.base.len() + self@.history.end) % 0x1_0000,
    {
        let layers: u16 = (self.base.max_layer() % 0x1_0000) as u16;
        layers.wrapping_add(self.history.random_seed())
    }

    /// The color that a new layer would get.
    pub fn next_color(&self) -> (color: [u8; 4])
        ensures
            color == seed_color((self@.base.len() + self@.history.end) % 0x1_0000),
    {
        random_color_from_seed(self.random_seed())
    }

    /// What is to be shown: a new image where none was drawn yet or the layers changed.
    pub fn sources(&mut self) -> (sources: MaskSources)
        requires
            old(self).wf(),
            0 < old(self)@.size[0] <= u32::MAX,
            old(self)@.size[0] * old(self)@.size[1] <= usize::MAX,
        ensures
            final(self).wf(),
            sources.upload is Some <==> old(self)@.texture_visible is None || old(self)@.redraw,
            sources.upload matches Some(image) ==> image@ == old(self)@.image() && image@.len()
                == old(self)@.size[0] * old(self)@.size[1],
            sources.upload matches Some(image) ==> image@ == image_of(
                old(self)@.stack(),
                old(self)@.settings,
                old(self)@.active_layer,
                old(self)@.size[0] as int,
                (old(self)@.size[0] * old(self)@.size[1]) as nat,
                old(self)@.stack().len() as int,
            ),
            sources.upload is Some ==> sources.visible && final(self)@ == (MaskModel {
                redraw: false,
                texture_visible: Some(true),
                ..old(self)@
            }),
            sources.upload is None ==> final(self)@ == old(self)@ && old(self)@.texture_visible
                == Some(sources.visible),
    {
        if self.texture_visible.is_none() || self.applied.requires_redraw {
            self.applied.requires_redraw = false;
            let image = draw_stack(
                &self.applied.stack,
                &self.settings,
                self.active_layer,
                self.size[0] as u32,
                self.size[0] * self.size[1],
            );
            self.texture_visible = Some(true);
            MaskSources { upload: Some(image), visible: true }
        } else {
            let visible: bool = match self.texture_visible {
                Some(visible) => visible,
                None => false,
            };
            MaskSources { upload: None, visible }
        }
    }

    /// Whether there are edits since the last save.
    pub fn is_dirty(&self) -> (dirty: bool)
        ensures
            dirty == self@.history.is_dirty(),
    {
        self.history.is_dirty()
    }

    /// Takes note of a save.
    pub fn mark_not_dirty(&mut self)
        requires
            old(self).wf(),
        ensures
            final(self).wf(),
            final(self)@ == (MaskModel { history: old(self)@.history.saved_here(), ..old(self)@ }),
    {
        self.history.mark_not_dirty();
    }

    /// Takes note of a save, and gives the layer that was changed last where there was a change.
    pub fn take_dirty(&mut self) -> (layer: Option<AffectedLayer>)
        requires
            old(self).wf(),
        ensures
            final(self).wf(),
            final(self)@ == (MaskModel { history: old(self)@.history.saved_here(), ..old(self)@ }),
            layer == old(self)@.history.dirty_layer(),
            layer is Some <==> old(self)@.history.is_dirty(),
    {
        self.history.take_dirty()
    }

    /// The currently applied (tip) history action, or `None` if history is empty or fully undone.
    /// Tools holding snapshots of mask ranges compare this against the action they last saw to
    /// detect that the mask changed underneath them.
    pub fn last_history_action(&self) -> (tip: Option<HistoryAction>)
        ensures
            tip is Some <==> self@.history.applied().len() > 0,
            tip matches Some(a) ==> a@ == self@.history.applied().last(),
    {
        let actions = self.history.iter();
        let n: usize = actions.len();
        assert(n == self@.history.applied().len());
        if n > 0 {
            let tip = actions[n - 1].clone();
            assert(tip@ == crate::history::action_models(actions@).last());
            Some(tip)
        } else {
            None
        }
    }

    /// Whether all pixels that the action names are inside the image.
    pub fn fits_image(&self, action: &HistoryAction) -> (fits: bool)
        ensures
            fits == action_fits(action.kind@, self@.size),
    {
        let roi = match &action.kind {
            HistoryActionKind::Add(add) => add.pixel_area.roi(),
            HistoryActionKind::Clear(clear) => clear.ranges.roi(),
            HistoryActionKind::Replace(replace) => replace.pixel_area.roi(),
            HistoryActionKind::Reset => {
                return true;
            },
        };
        let fits: bool = roi_fits(roi, self.size);
        proof {
            match action.kind@ {
                KindModel::Add(p) => lemma_roi_fits(roi, p, self.size),
                KindModel::Clear(p) => lemma_roi_fits(roi, p, self.size),
                KindModel::Replace(p) => lemma_roi_fits(roi, p, self.size),
                KindModel::Reset => {},
            }
        }
        fits
    }

    /// Does an edit.
    pub fn add_history_action(&mut self, action: HistoryAction)
        requires
            old(self).wf(),
        ensures
            final(self).wf(),
            final(self)@ == old(self)@.after_edit(action@),
            final(self)@.stack() == after_action(old(self)@.stack(), action@),
    {
        proof {
            push_applies_action(self@.base, self@.history, action@);
        }
        self.history.push(action);
        proof {
            use_type_invariant(&self.history);
        }
        self.applied.mark_redraw(&self.base, &self.history);
    }

    /// The keys for undo and redo, and the one that hides the mask or shows it again.
    pub fn handle_events(&mut self, shift_pressed: bool, cmd_z_pressed: bool, cmd_d_pressed: bool)
        requires
            old(self).wf(),
        ensures
            final(self).wf(),
            ({
                let undone = if cmd_z_pressed {
                    old(self)@.after_undo_key(shift_pressed)
                } else {
                    old(self)@
                };
                final(self)@ == (MaskModel {
                    texture_visible: match undone.texture_visible {
                        Some(visible) => Some(visible != cmd_d_pressed),
                        None => None,
                    },
                    ..undone
                })
            }),
    {
        if cmd_z_pressed {
            let require_redraw: bool = if shift_pressed {
                self.history.redo().is_some()
            } else {
                self.history.undo().is_some()
            };
            proof {
                use_type_invariant(&self.history);
            }
            if require_redraw {
                self.applied.mark_redraw(&self.base, &self.history);
            }
        }
        if let Some(visible) = self.texture_visible {
            if cmd_d_pressed {
                self.texture_visible = Some(!visible);
            }
        }
    }

    /// The same as `active_layer`.
    pub fn active_subgroup(&self) -> (layer: Option<usize>)
        ensures
            layer == self@.active_layer,
    {
        self.active_layer()
    }

    /// The layer that is drawn with the active opacity.
    pub fn active_layer(&self) -> (layer: Option<usize>)
        ensures
            layer == self@.active_layer,
    {
        self.active_layer
    }

    /// The layer under the cursor.
    pub fn hover_layer(&self) -> (layer: Option<usize>)
        ensures
            layer == self@.hover_layer,
    {
        self.hover_layer
    }

    /// The same as `set_active_layer`.
    pub fn set_active_subgroup(&mut self, index: Option<usize>)
        requires
            old(self).wf(),
        ensures
            final(self).wf(),
            final(self)@ == old(self)@.with_active_layer(index),
    {
        self.set_active_layer(index);
    }

    pub fn set_active_layer(&mut self, index: Option<usize>)
        requires
            old(self).wf(),
        ensures
            final(self).wf(),
            final(self)@ == old(self)@.with_active_layer(index),
    {
        if self.active_layer != index {
            self.active_layer = index;
            self.applied.mark_redraw(&self.base, &self.history);
        }
    }

    /// Makes the layer under the cursor the active one. Where the cursor just left the image, no
    /// layer stays active.
    pub fn update_hover_layer(&mut self, pos: Option<(usize, usize)>)
        requires
            old(self).wf(),
        ensures
            final(self).wf(),
            ({
                let hover = final(self)@.hover_layer;
                match pos {
                    Some((x, y)) if x <= u32::MAX && y <= u32::MAX => {
                        &&& is_topmost_at(old(self)@.stack(), x as int, y as int, hover)
                        &&& final(self)@ == (MaskModel {
                            hover_layer: hover,
                            ..old(self)@.with_active_layer(hover)
                        })
                    },
                    _ => final(self)@ == (if old(self)@.hover_layer is Some {
                        MaskModel { hover_layer: None, ..old(self)@.with_active_layer(None) }
                    } else {
                        old(self)@
                    }),
                }
            }),
    {
        let on_image: Option<(u32, u32)> = match pos {
            Some((x, y)) => if x <= u32::MAX as usize && y <= u32::MAX as usize {
                Some((x as u32, y as u32))
            } else {
                None
            },
            None => None,
        };
        match on_image {
            Some(p) => {
                let new_active: Option<usize> = self.find_layer_at(p);
                self.set_active_layer(new_active);
                self.hover_layer = new_active;
            },
            None => {
                let mouse_just_left_canvas: bool = self.hover_layer.is_some();
                if mouse_just_left_canvas {
                    self.set_active_layer(None);
                }
                self.hover_layer = None;
            },
        }
    }

    /// The same as `find_layer_at`.
    pub fn active_subgroup_at(&self, p: (u32, u32)) -> (layer: Option<usize>)
        requires
            self.wf(),
        ensures
            is_topmost_at(self@.stack(), p.0 as int, p.1 as int, layer),
    {
        self.find_layer_at(p)
    }

    /// The uppermost layer that has the pixel.
    pub fn find_layer_at(&self, p: (u32, u32)) -> (layer: Option<usize>)
        requires
            self.wf(),
        ensures
            is_topmost_at(self@.stack(), p.0 as int, p.1 as int, layer),
    {
        let (x, y) = p;
        let stack = &self.applied.stack;
        let mut i: usize = stack.max_layer();
        while i > 0
            invariant
                i <= stack@.len(),
                p == (x, y),
                stack@ == self@.stack(),
                forall|j: int|
                    i <= j < stack@.len() ==> !(#[trigger] stack@[j]).pixels.contains(
                        (x as int, y as int),
                    ),
            decreases i,
        {
            i -= 1;
            match stack.get(i) {
                Some(area) => {
                    if area.pixels.contains(x, y) {
                        return Some(i);
                    }
                },
                None => {
                    assert(!stack@[i as int].pixels.contains((x as int, y as int)));
                },
            }
        }
        None
    }

    /// The layers with all edits applied.
    pub fn subgroups_stack(&self) -> (stack: &PixelAreaStack)
        requires
            self.wf(),
        ensures
            stack@ == self@.stack(),
    {
        &self.applied.stack
    }

    /// Puts other layers under the edits, and hands out the ones before.
    pub fn replace_base_layers(&mut self, base: PixelAreaStack) -> (before: PixelAreaStack)
        requires
            old(self).wf(),
        ensures
            final(self).wf(),
            before@ == old(self)@.base,
            final(self)@ == (MaskModel {
                base: base@,
                redraw: old(self)@.redraw || base@ != old(self)@.base,
                ..old(self)@
            }),
    {
        let mut x = base;
        if self.base != x {
            core::mem::swap(&mut self.base, &mut x);
            self.applied.mark_redraw(&self.base, &self.history);
        }
        x
    }

    /// Puts an area into a layer under the edits, or empties that layer. Returns the old value.
    pub fn set_base_layer(&mut self, index: usize, area: Option<PixelArea>) -> (before: Option<
        PixelArea,
    >)
        requires
            old(self).wf(),
        ensures
            final(self).wf(),
            final(self)@ == (MaskModel {
                base: padded(old(self)@.base, index as int).update(
                    index as int,
                    match area {
                        Some(new) => new@,
                        None => blank_layer(index as int),
                    },
                ),
                redraw: true,
                ..old(self)@
            }),
            before is Some <==> index < old(self)@.base.len() && is_filled(
                old(self)@.base[index as int],
            ),
            before matches Some(b) ==> b@ == old(self)@.base[index as int],
    {
        let before = self.base.set_layer(index, area);
        self.applied.mark_redraw(&self.base, &self.history);
        before
    }

    /// Sets the color of a layer under the edits, which is made where it is not there yet.
    pub fn set_layer_color(&mut self, index: usize, color: [u8; 4])
        requires
            old(self).wf(),
        ensures
            final(self).wf(),
            final(self)@ == (MaskModel {
                base: padded(old(self)@.base, index as int).update(
                    index as int,
                    (LayerModel {
                        color,
                        pixels: padded(old(self)@.base, index as int)[index as int].pixels,
                    }),
                ),
                redraw: true,
                ..old(self)@
            }),
    {
        self.base.set_layer_color(index, color);
        self.applied.mark_redraw(&self.base, &self.history);
    }

    /// The color of a layer under the edits; `None` where there is no such layer.
    pub fn layer_color(&self, index: usize) -> (color: Option<[u8; 4]>)
        ensures
            color == if index < self@.base.len() {
                Some(self@.base[index as int].color)
            } else {
                None
            },
    {
        self.base.layer_color(index)
    }

    /// The runs of all layers, from top to bottom and from left to right, each with its layer.
    pub fn subgroups_ordered_spans(&self) -> (spans: Vec<(usize, Span)>)
        requires
            self.wf(),
        ensures
            merged(spans@, self@.stack()),
    {
        ordered_spans(&self.applied.stack)
    }
}

/// A redo right after an undo gives back the layers from before the undo, and an undo right after a
/// redo those from before the redo.
pub proof fn undo_and_redo_are_inverse(mask: MaskModel)
    requires
        mask.history.wf(),
    ensures
        mask.history.can_undo() ==> mask.after_undo_key(false).after_undo_key(true).stack()
            == mask.stack(),
        mask.history.can_redo() ==> mask.after_undo_key(true).after_undo_key(false).stack()
            == mask.stack(),
{
    if mask.history.can_undo() {
        crate::history::redo_after_undo(mask.history);
    }
    if mask.history.can_redo() {
        crate::history::undo_after_redo(mask.history);
    }
}

/// After an edit that starts an undo group, undo gives back the layers from before it, unless the
/// edit repeats a reset.
pub proof fn undo_reverts_edit(mask: MaskModel, action: ActionModel)
    requires
        mask.history.wf(),
        action.is_tracked,
        !mask.history.repeats_reset(action),
    ensures
        mask.after_edit(action).history.can_undo(),
        mask.after_edit(action).after_undo_key(false).stack() == mask.stack(),
{
    crate::history::undo_reverts_push(mask.base, mask.history, action);
}

fn roi_fits(roi: Roi, size: [usize; 2]) -> (fits: bool)
    ensures
        fits == (roi.x_end <= size[0] && roi.y_end <= size[1]),
{
    roi.x_end as u64 <= size[0] as u64 && roi.y_end as u64 <= size[1] as u64
}

proof fn lemma_roi_fits(roi: Roi, region: Set<(int, int)>, size: [usize; 2])
    requires
        roi.hugs(region),
    ensures
        region_fits(region, size) == (roi.x_end <= size[0] && roi.y_end <= size[1]),
{
    if region_fits(region, size) {
        assert(crate::ranges::touches_column(region, roi.x_end - 1));
        assert(crate::ranges::touches_row(region, roi.y_end - 1));
    }
    assert forall|x: int, y: int| #[trigger] region.contains((x, y)) implies x < roi.x_end && y
        < roi.y_end by {
        assert(roi.area().contains((x, y)));
    }
}

/// Edits and the choice of a layer change what is shown, so the image is drawn anew; they keep the
/// base, the size and the settings. What is active already may be chosen again without a change.
pub proof fn changes_are_drawn(mask: MaskModel, action: ActionModel, index: Option<usize>)
    ensures
        ({
            let after = mask.after_edit(action);
            &&& after.redraw
            &&& after.base == mask.base && after.size == mask.size && after.settings
                == mask.settings
            &&& after.texture_visible == mask.texture_visible
            &&& after.active_layer == mask.active_layer && after.hover_layer == mask.hover_layer
            &&& after.history == mask.history.after_push(action)
        }),
        ({
            let after = mask.with_active_layer(index);
            &&& after.active_layer == index
            &&& after.redraw <==> mask.redraw || mask.active_layer != index
            &&& after.stack() == mask.stack() && after.history == mask.history
            &&& after.base == mask.base && after.size == mask.size && after.settings
                == mask.settings
            &&& after.texture_visible == mask.texture_visible && after.hover_layer
                == mask.hover_layer
        }),
{
}

/// The key for undo and redo does one step where there is one, and draws the image anew; where there
/// is none it changes nothing. All but the history stays as it was.
pub proof fn undo_key_does_one_step(mask: MaskModel, redo: bool)
    ensures
        ({
            let after = mask.after_undo_key(redo);
            &&& (if redo {
                mask.history.can_redo()
            } else {
                mask.history.can_undo()
            }) ==> after.redraw && after.history == if redo {
                mask.history.after_redo()
            } else {
                mask.history.after_undo()
            }
            &&& !(if redo {
                mask.history.can_redo()
            } else {
                mask.history.can_undo()
            }) ==> after == mask
            &&& after.base == mask.base && after.size == mask.size && after.settings
                == mask.settings
            &&& after.texture_visible == mask.texture_visible
            &&& after.active_layer == mask.active_layer && after.hover_layer == mask.hover_layer
        }),
{
}

/// The layer that is found at a pixel has the pixel, and no layer above it has; none is found only
/// where no layer has the pixel.
pub proof fn found_layer_is_topmost(
    stack: Seq<LayerModel>,
    x: int,
    y: int,
    found: Option<usize>,
    above: int,
)
    requires
        is_topmost_at(stack, x, y, found),
        0 <= above < stack.len(),
        stack[above].pixels.contains((x, y)),
    ensures
        found matches Some(i) && i < stack.len() && stack[i as int].pixels.contains((x, y)) && above
            <= i,
{
}

/// An action fits where none of its pixels is right of the image or below it. A reset fits always.
pub proof fn fitting_actions_are_inside(kind: KindModel, size: [usize; 2], region: Set<(int, int)>)
    requires
        kind == KindModel::Add(region) || kind == KindModel::Clear(region) || kind
            == KindModel::Replace(region),
    ensures
        action_fits(kind, size) <==> !(exists|x: int, y: int|
            #![trigger region.contains((x, y))]
            region.contains((x, y)) && (x >= size[0] || y >= size[1])),
        action_fits(KindModel::Reset, size),
{
}

} // verus!
