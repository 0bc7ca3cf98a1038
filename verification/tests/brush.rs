use imanot::brush::{BrushEvent, BrushTool};
use imanot::rect_tool::{RectEvent, RectTool};
use imanot::stroke::{brush_square, PixelRect, StrokeState, PREVIEW_PIXEL};
use imanot::tool::ToolSetup;
use imanot::{
    default_tools, AffectedLayer, DrawTool, History, MaskDefaultActions, MaskImage, Mode,
    PixelAreaStack, Roi, SortedRanges, Span,
};

fn new_state(w: usize, h: usize) -> StrokeState {
    StrokeState::new(w, h, w / 2, h / 2)
}

/// The stamps between two pixels, at most the reach of the brush apart.
fn points_between(x0: usize, y0: usize, x1: usize, y1: usize, half_size: usize) -> Vec<(usize, usize)> {
    let dx = x1 as f64 - x0 as f64;
    let dy = y1 as f64 - y0 as f64;
    let dist = (dx * dx + dy * dy).sqrt();
    let steps = (dist / (half_size as f64).max(1.0)).ceil() as usize;
    (1..steps)
        .map(|i| {
            let t = i as f64 / steps as f64;
            ((x0 as f64 + dx * t).round() as usize, (y0 as f64 + dy * t).round() as usize)
        })
        .collect()
}

fn stamp_line(s: &mut StrokeState, x0: usize, y0: usize, x1: usize, y1: usize, half: usize) {
    s.stamp_line((x0, y0), (x1, y1), half, &points_between(x0, y0, x1, y1, half));
}

fn stamp_to(s: &mut StrokeState, x: usize, y: usize, half: usize) {
    let line = match s.last_pos() {
        Some((lx, ly)) => points_between(lx, ly, x, y, half),
        None => Vec::new(),
    };
    s.stamp_to(x, y, half, &line);
}

fn mask_of(s: &StrokeState, w: usize, h: usize) -> Vec<bool> {
    (0..h).flat_map(|y| (0..w).map(|x| s.is_stamped(x, y)).collect::<Vec<_>>()).collect()
}

fn count_mask_true(s: &StrokeState, w: usize, h: usize) -> usize {
    mask_of(s, w, h).iter().filter(|&&b| b).count()
}

fn mask_at(s: &StrokeState, x: usize, y: usize) -> bool {
    s.is_stamped(x, y)
}

#[test]
fn stamp_square_center() {
    let mut s = new_state(20, 20);
    s.stamp_square(10, 10, 3);
    assert!(mask_at(&s, 7, 7));
    assert!(mask_at(&s, 13, 13));
    assert!(!mask_at(&s, 6, 10));
    assert!(!mask_at(&s, 10, 14));
    assert_eq!(count_mask_true(&s, 20, 20), 7 * 7);
}

#[test]
fn stamp_square_clamps_top_left() {
    let mut s = new_state(20, 20);
    s.stamp_square(1, 1, 5);
    assert!(mask_at(&s, 0, 0));
    assert!(mask_at(&s, 6, 6));
    assert!(!mask_at(&s, 7, 1));
    assert_eq!(count_mask_true(&s, 20, 20), 7 * 7);
}

#[test]
fn stamp_square_clamps_bottom_right() {
    let mut s = new_state(20, 20);
    s.stamp_square(18, 18, 5);
    assert!(mask_at(&s, 13, 13));
    assert!(mask_at(&s, 19, 19));
    assert!(!mask_at(&s, 12, 18));
    assert_eq!(count_mask_true(&s, 20, 20), 7 * 7);
}

#[test]
fn stamp_square_half_size_zero_single_pixel() {
    let mut s = new_state(10, 10);
    s.stamp_square(5, 5, 0);
    assert!(mask_at(&s, 5, 5));
    assert_eq!(count_mask_true(&s, 10, 10), 1);
}

#[test]
fn stamp_square_exact_corner() {
    let mut s = new_state(10, 10);
    s.stamp_square(0, 0, 3);
    assert!(mask_at(&s, 0, 0));
    assert!(mask_at(&s, 3, 3));
    assert!(!mask_at(&s, 4, 0));
    assert_eq!(count_mask_true(&s, 10, 10), 4 * 4);
}

#[test]
fn stamp_line_horizontal() {
    let mut s = new_state(20, 20);
    stamp_line(&mut s, 5, 10, 15, 10, 2);
    assert!(mask_at(&s, 5, 10));
    assert!(mask_at(&s, 15, 10));
    assert!(mask_at(&s, 10, 10));
}

#[test]
fn stamp_line_vertical() {
    let mut s = new_state(20, 20);
    stamp_line(&mut s, 10, 5, 10, 15, 2);
    assert!(mask_at(&s, 10, 5));
    assert!(mask_at(&s, 10, 15));
    assert!(mask_at(&s, 10, 10));
}

#[test]
fn stamp_line_same_position_returns_early() {
    let mut s = new_state(10, 10);
    stamp_line(&mut s, 5, 5, 5, 5, 2);
    assert_eq!(count_mask_true(&s, 10, 10), 0);
    s.stamp_line((5, 5), (5, 5), 2, &[(1, 1)]);
    assert_eq!(count_mask_true(&s, 10, 10), 0);
}

#[test]
fn stamp_line_diagonal_covers_path() {
    let mut s = new_state(20, 20);
    stamp_line(&mut s, 0, 0, 10, 10, 1);
    assert!(mask_at(&s, 0, 0));
    assert!(mask_at(&s, 5, 5));
    assert!(mask_at(&s, 10, 10));
}

#[test]
fn stamp_to_first_call_stamps_square() {
    let mut s = new_state(20, 20);
    stamp_to(&mut s, 10, 10, 2);
    assert!(mask_at(&s, 8, 8));
    assert!(mask_at(&s, 12, 12));
    assert_eq!(s.last_pos(), Some((10, 10)));
}

#[test]
fn stamp_to_second_call_uses_line() {
    let mut s = new_state(20, 20);
    stamp_to(&mut s, 5, 10, 2);
    stamp_to(&mut s, 15, 10, 2);
    assert!(mask_at(&s, 10, 10));
    // The pixel moved to is stamped, and nothing is unset.
    assert!(mask_at(&s, 15, 10) && mask_at(&s, 5, 10));
    assert_eq!(s.last_pos(), Some((15, 10)));
    // Staying where it is stamps nothing.
    let before = mask_of(&s, 20, 20);
    s.stamp_to(15, 10, 9, &[(15, 10)]);
    assert_eq!(mask_of(&s, 20, 20), before);
}

#[test]
fn into_pixel_area_empty_mask_returns_none() {
    let s = new_state(10, 10);
    let mask = mask_of(&s, 10, 10);
    let result = mask.iter().find(|x| **x);
    assert!(result.is_none());
    assert!(s.bounded_spans().is_none());
}

#[test]
fn into_pixel_area_single_pixel() {
    let mut s = new_state(10, 10);
    s.stamp_square(5, 5, 0);
    let mask = mask_of(&s, 10, 10);
    let result = mask.iter().find(|x| **x);
    assert!(result.is_some());
    assert_eq!(s.bounded_spans(), Some(SortedRanges::from_span(Span::new(5..6, 5))));
}

#[test]
fn into_pixel_area_disconnected_spans() {
    let mut s = new_state(10, 3);
    s.stamp_square(3, 1, 1);
    s.stamp_square(6, 0, 1);
    let result = mask_of(&s, 10, 3);
    assert_eq!(
        result,
        vec![
            false, false, true, true, true, true, true, true, false, false, //
            false, false, true, true, true, true, true, true, false, false, //
            false, false, true, true, true, false, false, false, false, false,
        ]
    );
    assert_eq!(
        s.bounded_spans().unwrap().spans(),
        &[Span::new(2..8, 0), Span::new(2..8, 1), Span::new(2..5, 2)]
    );
}

#[test]
fn stamp_square_overlapping_idempotent() {
    let mut s = new_state(20, 20);
    s.stamp_square(10, 10, 3);
    let count1 = count_mask_true(&s, 20, 20);
    s.stamp_square(10, 10, 3);
    let count2 = count_mask_true(&s, 20, 20);
    assert_eq!(count1, count2);
}

#[test]
fn preview_patch_covers_what_changed() {
    let mut s = new_state(6, 4);
    assert!(s.update_texture().is_none());
    s.stamp_square(0, 0, 0);
    s.stamp_square(2, 1, 0);
    let patch = s.update_texture().unwrap();
    assert_eq!((patch.x, patch.y, patch.width, patch.height), (0, 0, 3, 2));
    assert_eq!(patch.pixels, vec![PREVIEW_PIXEL, 0, 0, 0, 0, PREVIEW_PIXEL]);
    assert!(s.update_texture().is_none());
    assert_eq!(
        brush_square(0, 3, 2, 6, 4),
        PixelRect { x_min: 0, x_max: 2, y_min: 1, y_max: 3 }
    );
}

fn event(cursor: Option<(usize, usize)>) -> BrushEvent {
    BrushEvent {
        width: 20,
        height: 20,
        cursor,
        drag_started: false,
        dragged: false,
        drag_stopped: false,
        clicked: false,
        cancel: false,
    }
}

fn empty_mask() -> MaskImage {
    MaskImage::new([20, 20], PixelAreaStack::default(), History::default())
}

fn square_ranges(x: u32, y: u32, w: u32, h: u32) -> SortedRanges {
    SortedRanges::from_roi(Roi::new(x..x + w, y..y + h))
}

fn layer(masks: &MaskImage, i: usize) -> Option<SortedRanges> {
    masks.subgroups_stack().get(i).map(|a| a.pixels.clone())
}

fn stroke(tool: &mut BrushTool, masks: &mut MaskImage, cancel: bool) {
    let mut e = event(Some((5, 5)));
    e.drag_started = true;
    e.dragged = true;
    tool.move_stroke(e, &[]);
    tool.finish_stroke(masks, e);
    assert!(tool.update_texture().is_some());
    let (lx, ly) = tool.last_pos().unwrap();
    let mut e = event(Some((9, 5)));
    e.dragged = true;
    tool.move_stroke(e, &points_between(lx, ly, 9, 5, tool.brush_size as usize));
    e.dragged = false;
    e.drag_stopped = true;
    e.cancel = cancel;
    tool.finish_stroke(masks, e);
    assert_eq!(tool.last_pos(), None);
}

#[test]
fn brush_strokes_add_and_clear() {
    let mut masks = empty_mask();
    let mut tool = BrushTool::default();
    assert_eq!(tool.brush_size, 10);
    tool.set_brush_size(1);
    stroke(&mut tool, &mut masks, true);
    assert_eq!(masks.subgroups_stack().max_layer(), 0);
    stroke(&mut tool, &mut masks, false);
    assert_eq!(layer(&masks, 0), Some(square_ranges(4, 4, 7, 3)));
    // On a layer of its own, a stroke leaves out what is there.
    stroke(&mut tool, &mut masks, false);
    assert_eq!(masks.subgroups_stack().max_layer(), 1);
    // On a named layer it does not.
    tool.draw_tool.set_layer(3).set_mode(Mode::Insert);
    stroke(&mut tool, &mut masks, false);
    assert_eq!(layer(&masks, 3), Some(square_ranges(4, 4, 7, 3)));
    // But a click does.
    let mut click = event(Some((10, 5)));
    click.clicked = true;
    tool.finish_stroke(&mut masks, click);
    assert_eq!(
        layer(&masks, 3),
        Some(square_ranges(4, 4, 8, 3))
    );
    tool.draw_tool.set_mode(Mode::Clear);
    tool.finish_stroke(&mut masks, click);
    assert_eq!(layer(&masks, 3), Some(square_ranges(4, 4, 5, 3)));
    stroke(&mut tool, &mut masks, false);
    assert_eq!(layer(&masks, 3), None);
    assert_eq!(layer(&masks, 0), Some(square_ranges(4, 4, 7, 3)));
}

#[test]
fn drag_without_cursor_starts_no_stroke() {
    let mut masks = empty_mask();
    let mut tool = BrushTool::default();
    let mut e = event(None);
    e.drag_started = true;
    e.dragged = true;
    tool.move_stroke(e, &[]);
    e.drag_stopped = true;
    tool.finish_stroke(&mut masks, e);
    assert!(tool.update_texture().is_none());
    assert!(!masks.is_dirty());
}

fn rect_event() -> RectEvent {
    RectEvent { width: 20, height: 20, selected: None, clicked: false, cursor: None }
}

#[test]
fn rect_tool_draws_rectangles_and_pixels() {
    let mut masks = empty_mask();
    let mut tool = RectTool::default();
    let mut drag = rect_event();
    drag.selected = Some(Roi::new(2..6, 3..5));
    tool.handle_interaction(&mut masks, drag);
    assert_eq!(layer(&masks, 0), Some(square_ranges(2, 3, 4, 2)));
    // A second rectangle leaves out the first.
    drag.selected = Some(Roi::new(2..8, 3..5));
    tool.handle_interaction(&mut masks, drag);
    assert_eq!(layer(&masks, 1), Some(square_ranges(6, 3, 2, 2)));
    // A click outside of the image is for its last pixel.
    let mut click = rect_event();
    click.clicked = true;
    click.cursor = Some((25, 19));
    tool.handle_interaction(&mut masks, click);
    assert_eq!(layer(&masks, 2), Some(square_ranges(19, 19, 1, 1)));
    // One that 16 bits cannot count is for none.
    click.cursor = Some((70_000, 0));
    tool.handle_interaction(&mut masks, click);
    assert_eq!(masks.subgroups_stack().max_layer(), 3);
    click.cursor = None;
    tool.handle_interaction(&mut masks, click);
    assert_eq!(masks.subgroups_stack().max_layer(), 3);
    tool.draw_tool.set_mode(Mode::Clear);
    click.cursor = Some((19, 19));
    tool.handle_interaction(&mut masks, click);
    assert_eq!(layer(&masks, 2), None);
    drag.selected = Some(Roi::new(0..20, 0..4));
    tool.handle_interaction(&mut masks, drag);
    assert_eq!(layer(&masks, 0), Some(square_ranges(2, 4, 4, 1)));
    assert_eq!(layer(&masks, 1), Some(square_ranges(6, 4, 2, 1)));
}

#[test]
fn large_images_take_no_clicks() {
    let mut masks = MaskImage::new([70_000, 1], PixelAreaStack::default(), History::default());
    let click = RectEvent {
        width: 70_000,
        height: 1,
        selected: None,
        clicked: true,
        cursor: Some((3, 0)),
    };
    RectTool::default().handle_interaction(&mut masks, click);
    assert_eq!(masks.subgroups_stack().max_layer(), 0);
}

#[test]
fn draw_tool_settings() {
    let mut tool = DrawTool::default();
    assert_eq!(tool, DrawTool { mode: Mode::Insert, layer: AffectedLayer::Unspecified });
    tool.set_mode(Mode::Clear).set_layer(2..5);
    assert_eq!(tool, DrawTool { mode: Mode::Clear, layer: AffectedLayer::Range(2, Some(5)) });
    assert_eq!(Mode::default(), Mode::Insert);
}

#[test]
fn tools_in_order() {
    let names: Vec<(String, ToolSetup)> = default_tools();
    let expected = [
        ("Pan", ToolSetup::Pan),
        ("Pan2", ToolSetup::Pan),
        ("Rect", ToolSetup::Rect(Mode::Insert)),
        ("PanDrag", ToolSetup::Drag(true)),
        ("RectDrag", ToolSetup::Drag(false)),
        ("Brush", ToolSetup::Brush(Mode::Insert)),
        ("Brush clear", ToolSetup::Brush(Mode::Clear)),
        ("Rect clear", ToolSetup::Rect(Mode::Clear)),
    ];
    assert_eq!(names.len(), expected.len());
    for (tool, (name, setup)) in names.iter().zip(expected) {
        assert_eq!((tool.0.as_str(), tool.1), (name, setup));
    }
}

#[test]
fn strokes_leave_history_alone_until_they_end() {
    let mut masks = empty_mask();
    masks.add(square_ranges(0, 0, 1, 1));
    let tip = masks.last_history_action();
    let mut tool = BrushTool::default();
    let mut e = event(Some((5, 5)));
    e.drag_started = true;
    tool.move_stroke(e, &[]);
    tool.finish_stroke(&mut masks, e);
    assert_eq!(masks.last_history_action(), tip);
}

#[test]
fn strokes_cover_where_they_are() {
    let mut s = new_state(30, 30);
    s.stamp_to(3, 4, 1, &[]);
    // Both ends are stamped, whatever lies between.
    s.stamp_to(20, 25, 1, &[]);
    assert!(mask_at(&s, 3, 4) && mask_at(&s, 20, 25) && !mask_at(&s, 11, 14));
    s.stamp_to(28, 2, 1, &[(0, 29)]);
    assert!(mask_at(&s, 20, 25) && mask_at(&s, 0, 29) && mask_at(&s, 28, 2));
    assert_eq!(s.last_pos(), Some((28, 2)));
}

#[test]
fn strokes_stay_inside_the_image() {
    let mut s = new_state(6, 4);
    s.stamp_to(0, 0, 3, &[]);
    s.stamp_to(50, 50, 3, &[(50, 50), (3, 9)]);
    let region = s.bounded_spans().unwrap();
    let roi = region.roi();
    assert!(roi.x_end <= 6 && roi.y_end <= 4);
    assert!(s.is_stamped(0, 0) && s.is_stamped(5, 3));
    assert!(!s.is_stamped(6, 0) && !s.is_stamped(0, 4));
    assert_eq!(s.last_pos(), Some((5, 3)));
}
