//! The rectangle tool: rectangles and single pixels, added to the mask or taken from it.
use crate::affected_layer::AffectedLayer;
use crate::brush::{draw, drawn};
use crate::mask::MaskImage;
use crate::ranges::{Roi, SortedRanges};
use crate::span::{covers, Span};
use crate::tool::DrawTool;
use vstd::prelude::*;

verus! {

/// What the pointer did over the image in one frame.
#[derive(Debug, Clone, Copy)]
pub struct RectEvent {
    pub width: u32,
    pub height: u32,
    /// The rectangle that a drag has just finished.
    pub selected: Option<Roi>,
    pub clicked: bool,
    pub cursor: Option<(usize, usize)>,
}

impl RectEvent {
    /// The pixel that a click is for: the nearest one inside the image. There is none where the
    /// image or the position does not fit into 16 bits.
    pub open spec fn clicked_pixel(self) -> Option<(int, int)> {
        match self.cursor {
            Some((x, y)) if self.selected is None && self.clicked && self.width - 1 <= u16::MAX
                && self.height - 1 <= u16::MAX && x <= u16::MAX && y <= u16::MAX => Some(
                (
                    if x < self.width - 1 {
                        x as int
                    } else {
                        self.width - 1
                    },
                    if y < self.height - 1 {
                        y as int
                    } else {
                        self.height - 1
                    },
                ),
            ),
            _ => None,
        }
    }

    /// A click in the last column that 16 bits can count has no end in 16 bits.
    pub open spec fn wf(self) -> bool {
        &&& self.width > 0
        &&& self.height > 0
        &&& self.selected matches Some(roi) ==> roi.wf()
        &&& self.clicked_pixel() matches Some((x, y)) ==> x < u16::MAX
    }
}

/// A clicked pixel is inside the image.
pub proof fn clicked_pixel_is_inside(event: RectEvent)
    requires
        event.wf(),
    ensures
        event.clicked_pixel() matches Some((x, y)) ==> 0 <= x < event.width && 0 <= y
            < event.height,
{
}

/// The rectangle tool.
pub struct RectTool {
    pub draw_tool: DrawTool,
}

impl Default for RectTool {
    fn default() -> (tool: Self)
        ensures
            tool.draw_tool == (DrawTool {
                mode: crate::tool::Mode::Insert,
                layer: AffectedLayer::Unspecified,
            }),
    {
        RectTool { draw_tool: DrawTool::default() }
    }
}

impl RectTool {
    /// Draws a finished rectangle into the mask, or a clicked pixel. A rectangle on a layer of its
    /// own leaves out pixels that other layers have, and a click always does.
    pub fn handle_interaction(&self, masks: &mut MaskImage, event: RectEvent)
        requires
            old(masks).wf(),
            event.wf(),
        ensures
            final(masks).wf(),
            final(masks)@ != old(masks)@ ==> final(masks)@.history.can_undo()
                && final(masks)@.after_undo_key(false).stack() == old(masks)@.stack(),
            final(masks)@ == match event.selected {
                Some(roi) => drawn(
                    old(masks)@,
                    self.draw_tool,
                    self.draw_tool.layer != AffectedLayer::Unspecified,
                    roi.area(),
                ),
                None => match event.clicked_pixel() {
                    Some((x, y)) => drawn(
                        old(masks)@,
                        self.draw_tool,
                        false,
                        set![(x, y)],
                    ),
                    None => old(masks)@,
                },
            },
    {
        if let Some(roi) = event.selected {
            let overlapping: bool = self.draw_tool.layer != AffectedLayer::Unspecified;
            draw(masks, self.draw_tool, overlapping, SortedRanges::from_roi(roi));
        } else if event.clicked {
            if let Some((x, y)) = event.cursor {
                let limit: usize = u16::MAX as usize;
                if event.width - 1 <= u16::MAX as u32 && event.height - 1 <= u16::MAX as u32 && x
                    <= limit && y <= limit {
                    let last_x: u32 = event.width - 1;
                    let last_y: u32 = event.height - 1;
                    let px: u32 = if (x as u32) < last_x { x as u32 } else { last_x };
                    let py: u32 = if (y as u32) < last_y { y as u32 } else { last_y };
                    let span = Span { start: px, end: px + 1, y: py };
                    proof {
                        let s = seq![span];
                        assert forall|a: int, b: int| #![trigger covers(s, a, b)]
                            covers(s, a, b) == set![(px as int, py as int)].contains((a, b)) by {
                            if a == px && b == py {
                                assert(s[0].has(a, b));
                            }
                        }
                        crate::span::lemma_pixels_ext(s, set![(px as int, py as int)]);
                    }
                    draw(masks, self.draw_tool, false, SortedRanges::from_span(span));
                }
            }
        }
    }
}

/// A click is for the pixel of the image that is nearest to the cursor: for that under the cursor
/// where the cursor is on the image, else for the one at the edge. Without a click, with a rectangle
/// that was just finished, or where 16 bits cannot count the image or the cursor, it is for none.
pub proof fn clicks_are_for_the_nearest_pixel(event: RectEvent)
    requires
        event.wf(),
    ensures
        event.clicked_pixel() is Some <==> {
            &&& event.clicked
            &&& event.selected is None
            &&& event.width <= 0x1_0000
            &&& event.height <= 0x1_0000
            &&& event.cursor matches Some((x, y))
            &&& x < 0x1_0000
            &&& y < 0x1_0000
        },
        event.cursor matches Some((x, y)) ==> (event.clicked_pixel() matches Some((px, py)) ==> {
            &&& x < event.width ==> px == x
            &&& x >= event.width ==> px + 1 == event.width
            &&& y < event.height ==> py == y
            &&& y >= event.height ==> py + 1 == event.height
        }),
{
}

} // verus!
