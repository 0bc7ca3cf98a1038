//! The brush: strokes of a square brush, added to the mask or taken from it.
use crate::affected_layer::AffectedLayer;
use crate::builder::{MaskActionBuilder, MaskDefaultActions};
use crate::mask::{MaskImage, MaskModel};
use crate::ranges::SortedRanges;
use crate::stroke::{new_stroke, square, PreviewPatch, StrokeModel, StrokeState};
use crate::tool::{DrawTool, Mode};
use vstd::prelude::*;

verus! {

/// What the pointer does over the image in one frame. The cursor is inside the image.
#[derive(Debug, Clone, Copy)]
pub struct BrushEvent {
    pub width: u32,
    pub height: u32,
    pub cursor: Option<(usize, usize)>,
    pub drag_started: bool,
    pub dragged: bool,
    pub drag_stopped: bool,
    pub clicked: bool,
    /// Whether the key is held that throws a stroke away.
    pub cancel: bool,
}

impl BrushEvent {
    pub open spec fn wf(self) -> bool {
        &&& self.width > 0
        &&& self.height > 0
        &&& self.width * self.height <= usize::MAX
        &&& self.width + u16::MAX <= usize::MAX
        &&& self.height + u16::MAX <= usize::MAX
        &&& self.cursor matches Some((x, y)) ==> x < self.width && y < self.height
    }
}

/// The brush.
pub struct BrushTool {
    pub draw_tool: DrawTool,
    /// How far the brush reaches around the cursor, at least one pixel.
    pub brush_size: u16,
    /// The stroke that is being drawn.
    pub stroke: Option<StrokeState>,
}

impl Default for BrushTool {
    fn default() -> (tool: Self)
        ensures
            tool.draw_tool == (DrawTool { mode: Mode::Insert, layer: AffectedLayer::Unspecified }),
            tool.brush_size == 10,
            tool.stroke_model() is None,
            tool.wf(),
    {
        BrushTool { draw_tool: DrawTool::default(), brush_size: 10, stroke: None }
    }
}

/// The mask after drawing pixels with a tool.
pub open spec fn drawn(
    mask: MaskModel,
    tool: DrawTool,
    overlapping: bool,
    pixels: Set<(int, int)>,
) -> MaskModel {
    match tool.mode {
        Mode::Insert => mask.after_add(tool.layer, true, overlapping, pixels),
        Mode::Clear => mask.after_clear(tool.layer, true, pixels),
    }
}

/// Draws pixels into a mask.
pub(crate) fn draw(masks: &mut MaskImage, tool: DrawTool, overlapping: bool, pixels: SortedRanges)
    requires
        old(masks).wf(),
    ensures
        final(masks).wf(),
        final(masks)@ == drawn(old(masks)@, tool, overlapping, pixels@),
        final(masks)@ != old(masks)@ ==> final(masks)@.history.can_undo()
            && final(masks)@.after_undo_key(false).stack() == old(masks)@.stack(),
{
    proof {
        if drawn(masks@, tool, overlapping, pixels@) != masks@ {
            undo_reverts_drawing(masks@, tool, overlapping, pixels@);
        }
    }
    match tool.mode {
        Mode::Insert => {
            masks.on_layer(tool.layer).keep_overlapping(overlapping).add(pixels);
        },
        Mode::Clear => {
            proof {
                use_type_invariant(&pixels);
            }
            masks.on_layer(tool.layer).clear(pixels.spans());
        },
    }
}

impl BrushTool {
    /// The stroke that is being drawn.
    pub open spec fn stroke_model(&self) -> Option<StrokeModel> {
        match self.stroke {
            Some(s) => Some(s@),
            None => None,
        }
    }

    /// The brush has a size. A stroke that is being drawn has stamped the pixel it is at, and has
    /// coordinates that a mask can hold.
    pub open spec fn wf(&self) -> bool {
        &&& self.brush_size > 0
        &&& self.stroke_model() matches Some(s) ==> {
            &&& s.last_pos is Some
            &&& s.has_its_position()
            &&& s.width <= u32::MAX
            &&& s.height <= u32::MAX
            &&& s.width + u16::MAX <= usize::MAX
            &&& s.height + u16::MAX <= usize::MAX
        }
    }

    /// Sets how far the brush reaches. The tool is handed out for more changes.
    pub fn set_brush_size(&mut self, size: u16) -> (tool: &mut Self)
        requires
            size > 0,
        ensures
            tool.brush_size == size,
            tool.draw_tool == old(self).draw_tool,
            tool.stroke_model() == old(self).stroke_model(),
            old(self).wf() ==> tool.wf(),
            *final(self) == *final(tool),
    {
        self.brush_size = size;
        self
    }

    /// Where the stroke was last; `None` where no stroke is being drawn.
    pub fn last_pos(&self) -> (last_pos: Option<(usize, usize)>)
        ensures
            last_pos == (match self.stroke_model() {
                Some(s) => s.last_pos,
                None => None,
            }),
    {
        match &self.stroke {
            Some(stroke) => stroke.last_pos(),
            None => None,
        }
    }

    /// The stroke after the first half of a frame: started anew where a drag starts, and moved on
    /// along the points `between` where a drag goes on.
    pub open spec fn stroke_after(&self, event: BrushEvent, between: Seq<(usize, usize)>) -> Option<
        StrokeModel,
    > {
        let size = self.brush_size as usize;
        let started = if event.drag_started {
            match event.cursor {
                Some((x, y)) => Some(
                    new_stroke(event.width as int, event.height as int, x, y).moved_to(
                        x,
                        y,
                        size,
                        Seq::empty(),
                    ),
                ),
                None => None,
            }
        } else {
            self.stroke_model()
        };
        match (started, event.cursor) {
            (Some(s), Some((x, y))) if event.dragged => Some(s.moved_to(x, y, size, between)),
            _ => started,
        }
    }

    /// The first half of a frame: starts a stroke or moves it on. `between` holds the points between
    /// the last position and the cursor.
    pub fn move_stroke(&mut self, event: BrushEvent, between: &[(usize, usize)])
        requires
            old(self).wf(),
            event.wf(),
        ensures
            final(self).wf(),
            final(self).draw_tool == old(self).draw_tool,
            final(self).brush_size == old(self).brush_size,
            final(self).stroke_model() == old(self).stroke_after(event, between@),
    {
        let half_size: usize = self.brush_size as usize;
        if event.drag_started {
            self.stroke = match event.cursor {
                Some((x, y)) => {
                    let stroke = single_stamp(event.width, event.height, x, y, half_size);
                    Some(stroke)
                },
                None => None,
            };
        }
        if event.dragged {
            if let Some((x, y)) = event.cursor {
                let mut current: Option<StrokeState> = None;
                core::mem::swap(&mut self.stroke, &mut current);
                if let Some(mut stroke) = current {
                    stroke.stamp_to(x, y, half_size, between);
                    self.stroke = Some(stroke);
                }
            }
        }
    }

    /// The part of the preview of the stroke that is to be drawn anew.
    pub fn update_texture(&mut self) -> (patch: Option<PreviewPatch>)
        requires
            old(self).wf(),
        ensures
            final(self).wf(),
            final(self).draw_tool == old(self).draw_tool,
            final(self).brush_size == old(self).brush_size,
            final(self).stroke_model() == (match old(self).stroke_model() {
                Some(s) => Some(StrokeModel { dirty: None, ..s }),
                None => None,
            }),
            patch is Some <==> old(self).stroke_model() is Some && old(self).stroke_model()->0.dirty
                is Some,
            patch matches Some(p) ==> {
                let s = old(self).stroke_model()->0;
                let d = s.dirty->0;
                &&& p.x == d.x_min
                &&& p.y == d.y_min
                &&& p.width == d.x_max - d.x_min + 1
                &&& p.height == d.y_max - d.y_min + 1
                &&& p.pixels@.len() == p.width * p.height
                &&& forall|i: int, j: int|
                    0 <= i < p.width && 0 <= j < p.height
                        ==> #[trigger] p.pixels@[crate::stroke::flat(i, j, p.width as int)]
                        == if s.stamped.contains((p.x + i, p.y + j)) {
                        crate::stroke::PREVIEW_PIXEL
                    } else {
                        0u32
                    }
            },
    {
        let mut current: Option<StrokeState> = None;
        core::mem::swap(&mut self.stroke, &mut current);
        match current {
            Some(mut stroke) => {
                let patch = stroke.update_texture();
                self.stroke = Some(stroke);
                patch
            },
            None => None,
        }
    }

    /// The second half of a frame: a finished stroke is drawn into the mask, or thrown away where
    /// the key for that is held; a click draws a single square. A stroke on a layer of its own
    /// leaves out pixels that other layers have, and a click always does.
    pub fn finish_stroke(&mut self, masks: &mut MaskImage, event: BrushEvent)
        requires
            old(self).wf(),
            old(masks).wf(),
            event.wf(),
        ensures
            final(self).wf(),
            final(masks).wf(),
            final(self).draw_tool == old(self).draw_tool,
            final(self).brush_size == old(self).brush_size,
            final(self).stroke_model() == if event.drag_stopped {
                None
            } else {
                old(self).stroke_model()
            },
            final(masks)@ != old(masks)@ ==> final(masks)@.history.can_undo()
                && final(masks)@.after_undo_key(false).stack() == old(masks)@.stack(),
            final(masks)@ == if event.drag_stopped {
                match old(self).stroke_model() {
                    Some(s) if !event.cancel => drawn(
                        old(masks)@,
                        old(self).draw_tool,
                        old(self).draw_tool.layer != AffectedLayer::Unspecified,
                        s.stamped,
                    ),
                    _ => old(masks)@,
                }
            } else {
                match event.cursor {
                    Some((x, y)) if event.clicked => drawn(
                        old(masks)@,
                        old(self).draw_tool,
                        false,
                        square(
                            x,
                            y,
                            old(self).brush_size as usize,
                            event.width as int,
                            event.height as int,
                        ).area(),
                    ),
                    _ => old(masks)@,
                }
            },
    {
        let tool: DrawTool = self.draw_tool;
        if event.drag_stopped {
            let mut current: Option<StrokeState> = None;
            core::mem::swap(&mut self.stroke, &mut current);
            if !event.cancel {
                if let Some(stroke) = current {
                    proof {
                        if let Some((x, y)) = stroke@.last_pos {
                            assert(stroke@.stamped.contains((x as int, y as int)));
                        }
                    }
                    if let Some(pixels) = stroke.bounded_spans() {
                        let overlapping: bool = tool.layer != AffectedLayer::Unspecified;
                        draw(masks, tool, overlapping, pixels);
                    }
                }
            }
        } else if event.clicked {
            if let Some((x, y)) = event.cursor {
                let half_size: usize = self.brush_size as usize;
                let stroke = single_stamp(event.width, event.height, x, y, half_size);
                if let Some(pixels) = stroke.bounded_spans() {
                    draw(masks, tool, false, pixels);
                }
            }
        }
    }
}

/// A stroke with its first square.
fn single_stamp(width: u32, height: u32, x: usize, y: usize, half_size: usize) -> (stroke:
    StrokeState)
    requires
        x < width,
        y < height,
        width * height <= usize::MAX,
        width + half_size <= usize::MAX,
        height + half_size <= usize::MAX,
    ensures
        stroke@ == new_stroke(width as int, height as int, x, y).moved_to(
            x,
            y,
            half_size,
            Seq::empty(),
        ),
        stroke@.stamped == square(x, y, half_size, width as int, height as int).area(),
        stroke@.stamped != Set::<(int, int)>::empty(),
        stroke@.last_pos == Some((x, y)),
        stroke@.has_its_position(),
{
    let mut stroke = StrokeState::new(width as usize, height as usize, x, y);
    let ghost start = stroke@;
    let none: Vec<(usize, usize)> = Vec::new();
    assert(none@ =~= Seq::<(usize, usize)>::empty());
    stroke.stamp_to(x, y, half_size, none.as_slice());
    proof {
        let area = square(x, y, half_size, width as int, height as int).area();
        assert(start.clamped((x, y)) == (x, y));
        assert(Set::empty().union(area) =~= area);
        assert(area.contains((x as int, y as int)));
    }
    stroke
}

/// Drawing with a tool. Inserting puts pixels on the layers that the tool names, and on no layer a
/// pixel that was not drawn; without overlap only those count that no layer has. Clearing takes
/// exactly the drawn pixels from the affected layers.
pub proof fn drawing_inserts_or_clears(
    mask: MaskModel,
    tool: DrawTool,
    overlapping: bool,
    pixels: Set<(int, int)>,
    i: int,
    p: (int, int),
)
    requires
        mask.history.wf(),
        0 <= i,
    ensures
        ({
            let before = mask.stack();
            let after = drawn(mask, tool, overlapping, pixels).stack();
            let had = i < before.len() && before[i].pixels.contains(p);
            let has = i < after.len() && after[i].pixels.contains(p);
            let free = forall|j: int|
                0 <= j < before.len() ==> !(#[trigger] before[j]).pixels.contains(p);
            let named = match tool.layer {
                AffectedLayer::Unspecified => i == before.len(),
                AffectedLayer::Layer(index) => i == index,
                AffectedLayer::Range(start, Some(end)) => start <= i < end,
                AffectedLayer::Range(start, None) => start <= i < before.len(),
            };
            match tool.mode {
                Mode::Insert => has <==> had || (pixels.contains(p) && named && (overlapping
                    || free)),
                Mode::Clear => has <==> had && !(tool.layer.affects_layer(i) && pixels.contains(p)),
            }
        }),
{
    match tool.mode {
        Mode::Insert => {
            crate::builder::added_pixels_are_on_the_named_layers(
                mask,
                tool.layer,
                true,
                overlapping,
                pixels,
                i,
                p,
            );
        },
        Mode::Clear => {
            let clear = crate::history::ActionModel {
                kind: crate::history::KindModel::Clear(pixels),
                layer: tool.layer,
                is_tracked: true,
            };
            crate::history::push_applies_action(mask.base, mask.history, clear);
            crate::history::action_effect(mask.stack(), clear, i);
        },
    }
}

/// What is drawn is an undo step of its own: where drawing did something, there is something to
/// undo, and one undo gives back the layers from before it.
pub proof fn undo_reverts_drawing(
    mask: MaskModel,
    tool: DrawTool,
    overlapping: bool,
    pixels: Set<(int, int)>,
)
    requires
        mask.history.wf(),
        drawn(mask, tool, overlapping, pixels) != mask,
    ensures
        ({
            let after = drawn(mask, tool, overlapping, pixels);
            &&& after.history.can_undo()
            &&& after.history.after_undo().applied() == mask.history.applied()
            &&& after.after_undo_key(false).stack() == mask.stack()
        }),
{
    let counted = if overlapping {
        pixels
    } else {
        pixels.difference(crate::ordered_spans::all_pixels(mask.stack()))
    };
    let action = match tool.mode {
        Mode::Insert => crate::history::ActionModel {
            kind: crate::history::KindModel::Add(counted),
            layer: tool.layer,
            is_tracked: true,
        },
        Mode::Clear => crate::history::ActionModel {
            kind: crate::history::KindModel::Clear(pixels),
            layer: tool.layer,
            is_tracked: true,
        },
    };
    crate::mask::undo_reverts_edit(mask, action);
    crate::history::undo_reverts_push(mask.base, mask.history, action);
}

/// A drag that starts on the image starts a stroke there, with the pixels that the brush reaches from
/// it and no others; off the image it starts none. A drag that goes on moves the stroke along. While
/// nothing is dragged the stroke stays as it is.
pub proof fn strokes_follow_the_cursor(
    tool: BrushTool,
    event: BrushEvent,
    between: Seq<(usize, usize)>,
    x: int,
    y: int,
)
    requires
        event.wf(),
    ensures
        ({
            let size = tool.brush_size;
            let before = tool.stroke_model();
            let after = tool.stroke_after(event, between);
            &&& event.drag_started ==> (after is Some <==> event.cursor is Some)
            &&& !event.drag_started ==> (after is Some <==> before is Some)
            &&& event.drag_started && event.cursor is Some ==> {
                let (cx, cy) = event.cursor->0;
                let s = after->0;
                &&& s.last_pos == Some((cx, cy))
                &&& s.width == event.width
                &&& s.height == event.height
                &&& s.stamped.contains((x, y)) <==> {
                    &&& 0 <= x < event.width
                    &&& 0 <= y < event.height
                    &&& cx - size <= x <= cx + size
                    &&& cy - size <= y <= cy + size
                }
            }
            &&& !event.drag_started && (!event.dragged || event.cursor is None) ==> after == before
            &&& !event.drag_started && event.dragged && event.cursor is Some && before is Some
                ==> after->0 == before->0.moved_to(
                (event.cursor->0).0,
                (event.cursor->0).1,
                size as usize,
                between,
            )
        }),
{
    if event.drag_started {
        if let Some((cx, cy)) = event.cursor {
            let start = new_stroke(event.width as int, event.height as int, cx, cy);
            assert(start.clamped((cx, cy)) == (cx, cy));
            crate::stroke::square_is_within_reach(
                cx,
                cy,
                tool.brush_size as usize,
                event.width as int,
                event.height as int,
                x,
                y,
            );
        }
    }
}

} // verus!
