use imanot::anchor::{Anchor, HoverPart};
use imanot::cluster::cluster_at;
use imanot::drag::{Gesture, HoverCursor, IdleEvent, SelectionChange};
use imanot::preview::{fill_spans, union_all, PreviewPlacement};
use imanot::selection::{ActiveSelectionLogic, LayerSelection};
use imanot::stroke::PREVIEW_PIXEL;
use imanot::transform::move_layer;
use imanot::{
    AffectedLayer, DragTool, History, MaskDefaultActions, MaskImage, PixelAreaStack, Roi,
    SortedRanges, Span,
};

fn img_roi() -> Roi {
    Roi::from_dimensions(100, 100)
}

fn rect_ranges(x: u32, y: u32, w: u32, h: u32) -> SortedRanges {
    SortedRanges::from_roi(Roi::new(x..x + w, y..y + h))
}

fn ranges_from_spans(spans: Vec<Span>) -> Option<SortedRanges> {
    SortedRanges::try_from_span_iter(&spans)
}

fn layer_pixels(masks: &MaskImage) -> Option<SortedRanges> {
    masks.subgroups_stack().get(0).map(|a| a.pixels.clone())
}

fn outsider_block_ok(masks: &MaskImage) -> bool {
    layer_pixels(masks).is_some_and(|p| {
        let rows: Vec<Span> =
            p.spans().iter().copied().filter(|s| (30..35).contains(&s.y)).collect();
        rows.len() == 5 && rows.iter().all(|s| s.start <= 40 && 50 <= s.end)
    })
}

fn mask(ranges: SortedRanges) -> MaskImage {
    let mut masks = MaskImage::new([100, 100], PixelAreaStack::default(), History::default());
    masks.add(ranges);
    masks
}

/// The tool with the bounds of its selection and the move of its gestures, as whoever draws the
/// frame keeps them. Bounds come from the library alone.
#[derive(Default)]
struct Harness {
    tool: DragTool,
    total: (i64, i64),
    frame: Option<Roi>,
}

impl Harness {
    fn note(&mut self, change: SelectionChange) {
        match change {
            SelectionChange::Kept => {}
            SelectionChange::Dropped => self.frame = None,
            SelectionChange::Fresh(roi) => {
                self.total = (0, 0);
                self.frame = Some(roi);
            }
            SelectionChange::Extended(rois) => {
                self.total = (0, 0);
                for roi in rois {
                    self.frame = self.frame.map(|f| f.union(&roi));
                }
            }
        }
    }

    fn click(&mut self, masks: &MaskImage, x: f32, y: f32, additive: bool) {
        let change = self.tool.click_select(masks, x.round() as u32, y.round() as u32, additive);
        self.note(change);
    }

    fn select_rect(&mut self, masks: &MaskImage, roi: Roi, additive: bool) {
        let change = self.tool.select_rect(masks, roi, additive);
        self.note(change);
    }

    fn drag_move(&mut self, from: (f64, f64), to: (f64, f64)) {
        let (dx, dy) = ((to.0 - from.0).round(), (to.1 - from.1).round());
        self.total = (self.total.0 + dx as i64, self.total.1 + dy as i64);
        self.frame = union_all(&self.transformed()).map(|pixels| pixels.roi());
    }

    fn center(&self) -> (f64, f64) {
        let f = self.frame.unwrap();
        (
            (f64::from(f.x_start) + f64::from(f.x_end)) / 2.0,
            (f64::from(f.y_start) + f64::from(f.y_end)) / 2.0,
        )
    }

    fn half(&self) -> (f64, f64) {
        let f = self.frame.unwrap();
        (f64::from(f.width()) / 2.0, f64::from(f.height()) / 2.0)
    }

    fn transformed(&self) -> Vec<Option<SortedRanges>> {
        let Some(selection) = &self.tool.selection else {
            return Vec::new();
        };
        transformed(selection, self.total)
    }

    fn commit(&mut self, masks: &mut MaskImage) {
        let new = self.transformed();
        self.tool.commit(masks, new);
    }

    fn covers(&self, layer: usize, x: u32, y: u32) -> bool {
        self.tool.selection.as_ref().unwrap().covers_on_layer(layer, x, y)
    }

    fn original(&self, k: usize) -> Option<SortedRanges> {
        self.tool.selection.as_ref().unwrap().original(k).cloned()
    }
}

fn transformed(selection: &ActiveSelectionLogic, by: (i64, i64)) -> Vec<Option<SortedRanges>> {
    (0..selection.len())
        .map(|k| move_layer(selection.original(k)?, by.0, by.1, &img_roi()))
        .collect()
}

fn mask_blocks() -> MaskImage {
    // 10x5 selection block at (10,10), 10x5 outsider block at (40,30).
    let spans = (10..15)
        .map(|y| Span::new(10..20, y))
        .chain((30..35).map(|y| Span::new(40..50, y)))
        .collect();
    mask(ranges_from_spans(spans).unwrap())
}

fn fresh_block_selection() -> (MaskImage, Harness) {
    let masks = mask_blocks();
    let mut tool = Harness::default();
    tool.click(&masks, 12.0, 12.0, false);
    (masks, tool)
}

#[test]
fn fractional_move_snaps_to_whole_pixels() {
    let mut masks = mask_blocks();
    let mut tool = Harness::default();
    tool.click(&masks, 12.0, 12.0, false);
    tool.drag_move((15.0, 12.5), (44.5, 32.5));
    assert_eq!(tool.total, (30, 20));
    assert_eq!(tool.center(), (45.0, 32.5));
    assert_eq!(tool.transformed(), vec![Some(rect_ranges(40, 30, 10, 5))]);
    tool.commit(&mut masks);
    assert_eq!(layer_pixels(&masks), Some(rect_ranges(40, 30, 10, 5)));
    // Second fractional move: still exact, only it and the outsiders remain.
    tool.drag_move((44.5, 32.5), (20.4, 22.6));
    tool.commit(&mut masks);
    assert_eq!(tool.total, (-24 + 30, -10 + 20));
    let expected = rect_ranges(16, 20, 10, 5).union(&rect_ranges(40, 30, 10, 5));
    assert_eq!(layer_pixels(&masks), Some(expected));
}

#[test]
fn delete_restores_absorbed_outsiders() {
    // Move the block exactly onto the outsider block (union), then press
    // Delete: selection content goes, outsiders come back byte-identical.
    let mut masks = mask_blocks();
    let outsider_before: Vec<Span> = layer_pixels(&masks)
        .unwrap()
        .spans()
        .iter()
        .copied()
        .filter(|s| (30..35).contains(&s.y))
        .collect();
    let mut tool = Harness::default();
    tool.click(&masks, 12.0, 12.0, false);
    tool.drag_move((15.0, 12.5), (45.0, 32.5));
    tool.commit(&mut masks);
    tool.tool.delete_selection(&mut masks);
    assert!(tool.tool.selection.is_none());
    let remaining: Vec<Span> = layer_pixels(&masks).unwrap().spans().to_vec();
    assert_eq!(remaining, outsider_before);
}

fn mask_with_rect(x: u32, y: u32) -> MaskImage {
    mask(rect_ranges(x, y, 5, 5))
}

fn select_rect_block(tool: &mut Harness, masks: &MaskImage, x: u32, y: u32) {
    tool.select_rect(masks, Roi::new(x..x + 5, y..y + 5), false);
}

#[test]
fn commit_keeps_selection_after_move() {
    let mut masks = mask_with_rect(10, 10);
    let mut tool = Harness::default();
    select_rect_block(&mut tool, &masks, 10, 10);
    tool.drag_move((12.5, 12.5), (17.5, 12.5));
    tool.commit(&mut masks);
    assert!(
        tool.tool.selection.is_some(),
        "selection stays idle after a successful move"
    );
}

#[test]
fn no_op_writes_no_history() {
    // Neither an unchanged commit nor a selection-less delete may touch
    // history.
    let mut masks = mask_with_rect(10, 10);
    let mut tool = Harness::default();
    select_rect_block(&mut tool, &masks, 10, 10);
    let tip_before = masks.last_history_action();
    tool.commit(&mut masks);
    assert_eq!(masks.last_history_action(), tip_before);
    let mut tool = DragTool::default();
    tool.delete_selection(&mut masks);
    assert_eq!(masks.last_history_action(), tip_before);
}

#[test]
fn delete_selection_clears_ranges_and_drops_selection() {
    let mut masks = mask_with_rect(10, 10);
    let mut tool = Harness::default();
    select_rect_block(&mut tool, &masks, 10, 10);
    let tip_before = masks.last_history_action();
    tool.tool.delete_selection(&mut masks);
    assert_eq!(layer_pixels(&masks), None);
    assert!(tool.tool.selection.is_none());
    assert_ne!(masks.last_history_action(), tip_before);
}

fn mask_with_two_clusters() -> MaskImage {
    mask(ranges_from_spans(vec![Span::new(0..2, 0), Span::new(5..7, 3)]).unwrap())
}

#[test]
fn shift_click_accumulates_clusters_same_layer() {
    let masks = mask_with_two_clusters();
    let mut tool = Harness::default();
    tool.click(&masks, 0.0, 0.0, false);
    assert!(tool.covers(0, 0, 0));
    tool.click(&masks, 6.0, 3.0, true);
    // Same layer unions into a single entry (like rect-select): both
    // clusters are covered by the one selection.
    assert!(tool.covers(0, 0, 0));
    assert!(tool.covers(0, 6, 3));
    assert_eq!(tool.tool.selection.as_ref().unwrap().len(), 1);
    // Frame expanded to contain both clusters.
    assert!(tool.half().0 >= 3.5);
}

#[test]
fn shift_click_covered_or_empty_is_noop() {
    let masks = mask_with_two_clusters();
    let mut tool = Harness::default();
    tool.click(&masks, 0.0, 0.0, false);
    tool.click(&masks, 6.0, 3.0, true);
    let tip_before = masks.last_history_action();
    // Re-clicking covered pixels is a no-op: no duplicate entry, no
    // history write, no rebase. Clicking empty space keeps the selection.
    assert!(matches!(tool.tool.click_select(&masks, 1, 0, true), SelectionChange::Kept));
    assert!(matches!(tool.tool.click_select(&masks, 50, 50, true), SelectionChange::Kept));
    assert!(tool.covers(0, 0, 0));
    assert_eq!(masks.last_history_action(), tip_before);
}

#[test]
fn shift_click_adds_other_layer() {
    let mut masks = mask(rect_ranges(0, 0, 2, 2));
    masks.add(rect_ranges(50, 50, 2, 2));
    let mut tool = Harness::default();
    tool.click(&masks, 0.0, 0.0, false);
    tool.click(&masks, 51.0, 50.0, true);
    assert!(tool.covers(0, 0, 0));
    assert!(tool.covers(1, 51, 50));
    // Layer 2 stays unselected.
    assert!(!tool.covers(2, 0, 50));
}

#[test]
fn unaffected_layer_click_clears_only_without_shift() {
    // Tool restricted to layer 0: a pixel covered only by layer 1 is
    // empty space for the tool: a plain click clears the selection,
    // a Shift-click keeps it.
    let masks = mask_with_three_layers();
    let mut tool = Harness::default();
    tool.tool.set_layer(0);
    tool.click(&masks, 0.0, 0.0, false);
    assert!(tool.tool.selection.is_some());
    tool.click(&masks, 51.0, 0.0, false);
    assert!(tool.tool.selection.is_none());
    tool.click(&masks, 0.0, 0.0, false);
    tool.click(&masks, 51.0, 0.0, true);
    assert!(tool.covers(0, 0, 0));
}

#[test]
fn shift_add_rebases_transform_without_history_write() {
    let mut masks = mask_with_two_clusters();
    let mut tool = Harness::default();
    tool.click(&masks, 0.0, 0.0, false);
    // Transform + commit.
    tool.drag_move((1.0, 0.0), (6.0, 0.0));
    tool.commit(&mut masks);
    // Shift-add bakes committed into original and resets the transform,
    // without touching history.
    let tip_before = masks.last_history_action();
    tool.click(&masks, 6.0, 3.0, true);
    assert_eq!(masks.last_history_action(), tip_before);
    assert_eq!(tool.total, (0, 0));
    assert_eq!(
        tool.original(0),
        ranges_from_spans(vec![Span::new(5..7, 0), Span::new(5..7, 3)])
    );
    // The next commit moves placed pixels and new cluster uniformly:
    // both travel by the same delta, nothing is left behind.
    tool.drag_move((6.0, 3.0), (16.0, 13.0));
    tool.commit(&mut masks);
    let expected = rect_ranges(15, 10, 2, 1).union(&rect_ranges(15, 13, 2, 1));
    assert_eq!(layer_pixels(&masks), Some(expected));
}

#[test]
fn shift_rect_unions_same_layer() {
    let masks = mask_with_two_clusters();
    let mut tool = Harness::default();
    tool.select_rect(&masks, Roi::new(0..3, 0..1), false);
    assert!(tool.covers(0, 0, 0));
    assert!(!tool.covers(0, 6, 3));
    // Frame hugs the contained cluster (0..2, 0), not the marquee.
    assert_eq!(tool.frame, Some(Roi::new(0..2, 0..1)));
    assert_eq!(tool.center(), (1.0, 0.5));
    assert_eq!(tool.half(), (1.0, 0.5));
    // Shift-rect over the second cluster unions: the frame hugs the
    // combined content (0..7, 0..4).
    let change = tool.tool.select_rect(&masks, Roi::new(4..8, 2..4), true);
    assert!(matches!(&change, SelectionChange::Extended(rois) if *rois == vec![Roi::new(5..7, 3..4)]));
    tool.note(change);
    assert!(tool.covers(0, 6, 3));
    assert_eq!(tool.center(), (3.5, 2.0));
    assert_eq!(tool.half(), (3.5, 2.0));
}

#[test]
fn empty_rect_drops_or_keeps() {
    let masks = mask_with_two_clusters();
    let mut tool = Harness::default();
    tool.select_rect(&masks, Roi::new(0..3, 0..1), false);
    tool.select_rect(&masks, Roi::new(50..60, 50..60), true);
    assert!(tool.covers(0, 0, 0));
    tool.select_rect(&masks, Roi::new(50..60, 50..60), false);
    assert!(tool.tool.selection.is_none());
}

/// Half as wide again, from the left edge of the image.
fn widened(original: &SortedRanges) -> Option<SortedRanges> {
    let spans: Vec<Span> = (0..100u32)
        .flat_map(|y| (0..100u32).map(move |x| (x, y)))
        .filter(|(x, y)| original.contains((2 * x + 1) / 3, *y))
        .map(|(x, y)| Span::new(x..x + 1, y))
        .collect();
    ranges_from_spans(spans)
}

#[test]
fn shift_click_union_then_resize_commits_both() {
    // Two shift-clicked areas on the same layer must resize together.
    let mut masks = mask_with_two_clusters();
    let mut tool = Harness::default();
    tool.click(&masks, 0.0, 0.0, false);
    tool.click(&masks, 6.0, 3.0, true);
    // The selection content is exactly the union of the two clusters.
    let union = ranges_from_spans(vec![Span::new(0..2, 0), Span::new(5..7, 3)]).unwrap();
    assert_eq!(tool.original(0), Some(union.clone()));
    let expected = widened(&union).unwrap();
    let new = vec![widened(&tool.original(0).unwrap())];
    tool.tool.commit(&mut masks, new);
    assert_eq!(layer_pixels(&masks), Some(expected));
    // Both areas survived the resize (no subtraction of the old area),
    // and the selection stays alive for further gestures.
    let pixels = layer_pixels(&masks).unwrap();
    assert!(pixels.spans().iter().any(|s| s.y == 0));
    assert!(tool.tool.selection.is_some());
}

fn mask_with_three_layers() -> MaskImage {
    let mut masks = mask(rect_ranges(0, 0, 2, 2));
    masks.add(rect_ranges(50, 0, 2, 2));
    masks.add(rect_ranges(0, 50, 2, 2));
    masks
}

#[test]
fn select_layers_selects_whole_matched_layers() {
    let masks = mask_with_three_layers();
    let mut tool = Harness::default();
    let change = tool.tool.select_layers(&masks, 0..2);
    tool.note(change);
    // Both matched layers selected with their full pixels, layer 2 not.
    assert!(tool.covers(0, 0, 0) && tool.covers(0, 1, 1));
    assert!(tool.covers(1, 50, 0) && tool.covers(1, 51, 1));
    assert!(!tool.covers(2, 0, 50));
    assert_eq!(tool.total, (0, 0));
    assert_eq!(tool.original(0), Some(rect_ranges(0, 0, 2, 2)));
    assert_eq!(tool.original(1), Some(rect_ranges(50, 0, 2, 2)));
    // Frame tightly covers both layers, nothing else.
    assert_eq!(tool.center(), (26.0, 1.0));
    assert_eq!(tool.half(), (26.0, 1.0));
    // Staleness tip armed against the current history.
    assert!(!tool.tool.selection.as_ref().unwrap().is_stale(&masks.last_history_action()));
}

#[test]
fn select_layers_accepts_layer_shorthand() {
    let masks = mask_with_three_layers();
    let mut tool = Harness::default();
    tool.tool.select_layers(&masks, 2);
    assert!(tool.covers(2, 0, 50) && tool.covers(2, 1, 51));
    // Only layer 2: the others stay unselected.
    assert!(!tool.covers(0, 0, 0));
}

#[test]
fn select_layers_without_match_drops_selection() {
    let masks = mask_with_three_layers();
    let mut tool = DragTool::default();
    tool.select_layers(&masks, ..);
    assert!(tool.selection.is_some());
    tool.select_layers(&masks, 5..8);
    assert!(tool.selection.is_none());
}

#[test]
fn select_layers_replaces_existing_selection() {
    let masks = mask_with_three_layers();
    let mut tool = Harness::default();
    tool.tool.select_layers(&masks, ..);
    assert!(tool.covers(0, 0, 0));
    assert!(tool.covers(1, 50, 0));
    assert!(tool.covers(2, 0, 50));
    tool.tool.select_layers(&masks, 1..2);
    assert!(tool.covers(1, 50, 0));
    assert!(!tool.covers(0, 0, 0));
    assert!(!tool.covers(2, 0, 50));
}

#[test]
fn select_layers_then_gesture_moves_all_layers() {
    let mut masks = mask_with_three_layers();
    let mut tool = Harness::default();
    let change = tool.tool.select_layers(&masks, 0..3);
    tool.note(change);
    tool.drag_move((1.0, 1.0), (4.0, 5.0));
    tool.commit(&mut masks);
    assert_eq!(layer_pixels(&masks), Some(rect_ranges(3, 4, 2, 2)));
    let second = masks.subgroups_stack().get(1).map(|a| a.pixels.clone());
    assert_eq!(second, Some(rect_ranges(53, 4, 2, 2)));
}

#[test]
fn move_preserves_pixels_outside_selection() {
    // Small overlapping move.
    let (mut masks, mut tool) = fresh_block_selection();
    tool.drag_move((12.0, 12.0), (14.0, 12.0));
    tool.commit(&mut masks);
    assert!(outsider_block_ok(&masks));

    // Two consecutive moves.
    let (mut masks, mut tool) = fresh_block_selection();
    tool.drag_move((12.0, 12.0), (17.0, 12.0));
    tool.commit(&mut masks);
    tool.drag_move((17.0, 12.0), (22.0, 12.0));
    tool.commit(&mut masks);
    assert!(outsider_block_ok(&masks));

    // Move and back.
    let (mut masks, mut tool) = fresh_block_selection();
    let before = layer_pixels(&masks);
    tool.drag_move((12.0, 12.0), (17.0, 12.0));
    tool.commit(&mut masks);
    tool.drag_move((17.0, 12.0), (12.0, 12.0));
    tool.commit(&mut masks);
    assert!(outsider_block_ok(&masks));
    assert_eq!(layer_pixels(&masks), before);

    // Shift-add second cluster, then move both: nothing outside the
    // union may change.
    let mut masks = mask_with_two_clusters();
    let mut tool = Harness::default();
    tool.click(&masks, 0.0, 0.0, false);
    tool.drag_move((1.0, 0.0), (6.0, 0.0));
    tool.commit(&mut masks);
    let before = layer_pixels(&masks).unwrap();
    tool.click(&masks, 6.0, 3.0, true);
    tool.drag_move((6.0, 3.0), (16.0, 13.0));
    tool.commit(&mut masks);
    let after = layer_pixels(&masks).unwrap();
    assert_eq!(after.spans().len(), before.spans().len());

    // Rect-select, then two fractional moves.
    let mut masks = mask_blocks();
    let mut tool = Harness::default();
    tool.select_rect(&masks, Roi::new(8..22, 8..16), false);
    tool.drag_move((15.0, 12.5), (19.7, 14.8));
    tool.commit(&mut masks);
    assert!(outsider_block_ok(&masks));
    tool.drag_move((19.7, 14.8), (16.2, 19.3));
    tool.commit(&mut masks);
    assert!(outsider_block_ok(&masks));

    // 2D partial overlap: 10x5 block moved to straddle the outsider block.
    let (mut masks, mut tool) = fresh_block_selection();
    tool.drag_move((15.0, 12.5), (43.0, 31.5));
    tool.commit(&mut masks);
    assert!(outsider_block_ok(&masks));

    // 2D full cover: moved block lands exactly on the outsider block.
    let (mut masks, mut tool) = fresh_block_selection();
    tool.drag_move((15.0, 12.5), (45.0, 32.5));
    tool.commit(&mut masks);
    assert!(outsider_block_ok(&masks));
}

#[test]
fn one_undo_reverts_commit_and_delete() {
    let mut masks = mask_with_three_layers();
    let start = masks.subgroups_stack().clone();
    let mut tool = Harness::default();
    let change = tool.tool.select_layers(&masks, ..);
    tool.note(change);
    tool.drag_move((1.0, 1.0), (4.0, 5.0));
    tool.commit(&mut masks);
    assert!(masks.subgroups_stack() != &start);
    masks.handle_events(false, true, false);
    assert!(masks.subgroups_stack() == &start);
    tool.tool.select_layers(&masks, ..);
    tool.tool.delete_selection(&mut masks);
    assert!(masks.subgroups_stack().is_empty());
    masks.handle_events(false, true, false);
    assert!(masks.subgroups_stack() == &start);
}

#[test]
fn commit_keeps_preview_alive() {
    // Dropping the selection at a new position must not re-rasterize:
    // the placed pixels are exactly what the preview already shows.
    let block = rect_ranges(10, 10, 10, 5);
    let outsiders = rect_ranges(40, 30, 10, 5);
    let mut masks = mask(block.union(&outsiders));
    let (logic, roi) = ActiveSelectionLogic::fresh_from_parts(
        vec![(0, block, Some(outsiders))],
        masks.last_history_action(),
    );
    let mut tool = Harness::default();
    tool.tool.selection = Some(logic);
    tool.note(SelectionChange::Fresh(roi));
    let mut preview = PreviewPlacement::new();
    preview.show(union_all(&tool.transformed()).unwrap().roi());
    assert!(preview.is_visible());
    // Move by 5px, as a finished Move gesture would.
    tool.drag_move((15.0, 12.5), (20.0, 12.5));
    assert!(preview.try_reposition(union_all(&tool.transformed()).unwrap().roi()));
    tool.commit(&mut masks);
    assert!(tool.tool.selection.is_some(), "moved commit survives");
    let expected = rect_ranges(15, 10, 10, 5).union(&rect_ranges(40, 30, 10, 5));
    assert_eq!(layer_pixels(&masks), Some(expected));
    assert!(outsider_block_ok(&masks));
    assert!(preview.is_visible());
    assert_eq!(preview.origin, [15, 10]);
}

#[test]
fn commit_moves_content_and_frame() {
    let mut masks = mask_with_rect(10, 10);
    let (logic, roi) = ActiveSelectionLogic::fresh_from_parts(
        vec![(0, rect_ranges(10, 10, 5, 5), None)],
        masks.last_history_action(),
    );
    let mut tool = Harness::default();
    tool.tool.selection = Some(logic);
    tool.note(SelectionChange::Fresh(roi));
    tool.drag_move((0.0, 0.0), (5.0, 0.0));
    tool.commit(&mut masks);
    assert!(tool.tool.selection.is_some(), "moved commit survives");
    assert_eq!(layer_pixels(&masks), Some(rect_ranges(15, 10, 5, 5)));
    assert_eq!(tool.center(), (17.5, 12.5));
    assert_eq!(tool.half(), (2.5, 2.5));
}

#[test]
fn commit_offscreen_doesnt_drop_empty_selection() {
    let mut masks = mask_with_rect(10, 10);
    let (logic, _) = ActiveSelectionLogic::fresh_from_parts(
        vec![(0, rect_ranges(10, 10, 5, 5), None)],
        masks.last_history_action(),
    );
    // Move fully out of the image: pixels are cleared, but the commit
    // still lands in history, so the logic survives (the tool drops its
    // selection).
    let new = transformed(&logic, (-50, 0));
    let tip_before = masks.last_history_action();
    assert!(logic.commit(&mut masks, new).is_some());
    assert_eq!(layer_pixels(&masks), None);
    assert_ne!(masks.last_history_action(), tip_before);
}

#[test]
fn tool_drops_a_selection_that_left_the_image() {
    let mut masks = mask_with_rect(10, 10);
    let before = masks.subgroups_stack().clone();
    let mut tool = Harness::default();
    select_rect_block(&mut tool, &masks, 10, 10);
    tool.drag_move((0.0, 0.0), (-50.0, 0.0));
    let new = tool.transformed();
    tool.tool.step_transform(&mut masks, Some(new));
    assert!(tool.tool.selection.is_none());
    assert_eq!(layer_pixels(&masks), None);
    // The clears are a single undo step.
    masks.handle_events(false, true, false);
    assert!(masks.subgroups_stack() == &before);
    // A selection of which something is left stays.
    let mut masks = mask_with_three_layers();
    let mut tool = Harness::default();
    let change = tool.tool.select_layers(&masks, 0..2);
    tool.note(change);
    tool.drag_move((0.0, 0.0), (-20.0, 0.0));
    tool.commit(&mut masks);
    assert!(tool.tool.selection.is_some());
    assert_eq!(layer_pixels(&masks), None);
    // The part that left comes back with the others.
    tool.drag_move((0.0, 0.0), (25.0, 0.0));
    tool.commit(&mut masks);
    assert_eq!(layer_pixels(&masks), Some(rect_ranges(5, 0, 2, 2)));
}

#[test]
fn leaving_the_image_restores_absorbed_outsiders() {
    let (mut masks, mut tool) = fresh_block_selection();
    // Onto the outsider block, then out of the image.
    tool.drag_move((15.0, 12.5), (43.0, 31.5));
    tool.commit(&mut masks);
    assert!(outsider_block_ok(&masks));
    tool.drag_move((0.0, 0.0), (-90.0, 0.0));
    tool.commit(&mut masks);
    assert_eq!(layer_pixels(&masks), Some(rect_ranges(40, 30, 10, 5)));
    assert!(tool.tool.selection.is_none());
}

#[test]
fn parts_out_of_the_image_have_nothing_to_clear() {
    let mut masks = mask_blocks();
    let (logic, _) = ActiveSelectionLogic::fresh_from_parts(
        vec![(0, rect_ranges(10, 10, 10, 5), Some(rect_ranges(40, 30, 10, 5)))],
        masks.last_history_action(),
    );
    let new = transformed(&logic, (-50, 0));
    let logic = logic.commit(&mut masks, new).unwrap();
    assert!(!logic.covers_on_layer(0, 12, 12));
    let tip = masks.last_history_action();
    // Still out of the image: nothing to do.
    let new = transformed(&logic, (-60, 0));
    let mut logic = logic.commit(&mut masks, new).unwrap();
    assert_eq!(masks.last_history_action(), tip);
    // A rebase takes what is placed: nothing.
    logic.rebase(masks.last_history_action());
    assert_eq!(logic.original(0), None);
    logic.delete_all(&mut masks);
    assert_eq!(masks.last_history_action(), tip);
    assert_eq!(layer_pixels(&masks), Some(rect_ranges(40, 30, 10, 5)));
}

#[test]
fn shift_add_rebases_snapshot_without_history_write() {
    // Shift-add batch: the placed (committed) pixels are baked into a
    // pristine `original`, so later gestures transform old and new content
    // uniformly. No history write: the tip is re-armed together with the
    // rebase.
    let mut masks = mask_with_rect(0, 0);
    let (logic, _) = ActiveSelectionLogic::fresh_from_parts(
        vec![(0, rect_ranges(0, 0, 5, 5), None)],
        masks.last_history_action(),
    );
    // Transform + commit: `original` stays pristine, `committed` moves.
    let moved = transformed(&logic, (5, 0));
    let mut logic = logic.commit(&mut masks, moved).unwrap();
    assert_eq!(logic.original(0), Some(&rect_ranges(0, 0, 5, 5)));
    let tip_before = masks.last_history_action();
    let added = rect_ranges(5, 3, 2, 1);
    logic.merge_layers(vec![(0, added, None)], masks.last_history_action());
    // Rebase: the placed content plus the added cluster form the new
    // pristine original; the tip is re-armed.
    assert_eq!(logic.original(0), Some(&rect_ranges(5, 0, 5, 5)));
    assert!(!logic.is_stale(&masks.last_history_action()));
    assert_eq!(masks.last_history_action(), tip_before);
}

#[test]
fn transform_identity_and_translation() {
    let original = rect_ranges(10, 10, 5, 5);
    assert_eq!(move_layer(&original, 0, 0, &img_roi()), Some(original.clone()));
    assert_eq!(move_layer(&original, 3, -2, &img_roi()), Some(rect_ranges(13, 8, 5, 5)));
}

#[test]
fn transform_clipping() {
    // Fully outside: nothing visible; partially outside: clipped to
    // the image.
    let original = rect_ranges(10, 10, 5, 5);
    assert!(move_layer(&original, -50, 0, &img_roi()).is_none());
    let clipped = move_layer(&rect_ranges(95, 95, 4, 4), 3, 3, &img_roi()).unwrap();
    let bounds = clipped.roi();
    assert_eq!((bounds.x_start, bounds.y_start), (98, 98));
    assert!(bounds.x_start + bounds.width() <= 100);
    assert!(bounds.y_start + bounds.height() <= 100);
}

#[test]
fn moves_add_up() {
    let original = ranges_from_spans(vec![Span::new(3..6, 2), Span::new(8..9, 4)]).unwrap();
    let once = move_layer(&original, 7, 1, &img_roi()).unwrap();
    let twice = move_layer(&once, -4, 3, &img_roi());
    assert_eq!(twice, move_layer(&original, 3, 4, &img_roi()));
    assert_eq!(move_layer(&once, -7, -1, &img_roi()), Some(original));
}

#[test]
fn cluster_at_finds_covering_cluster_only() {
    let ranges = ranges_from_spans(vec![Span::new(0..2, 0), Span::new(5..7, 3)]).unwrap();
    let left = cluster_at(&ranges, 0, 0).unwrap();
    assert_eq!(left.roi(), Roi::new(0..2, 0..1));
    assert_eq!(left.len(), 1);
    let right = cluster_at(&ranges, 6, 3).unwrap();
    assert_eq!(right.roi(), Roi::new(5..7, 3..4));
    // Pixels between/outside clusters select nothing.
    assert!(cluster_at(&ranges, 3, 0).is_none());
    assert!(cluster_at(&ranges, 0, 5).is_none());
}

#[test]
fn cluster_connects_diagonally() {
    // 8-connectivity: diagonally touching pixels form one cluster.
    let ranges = ranges_from_spans(vec![Span::new(0..1, 0), Span::new(1..2, 1)]).unwrap();
    let cluster = cluster_at(&ranges, 0, 0).unwrap();
    assert_eq!(cluster.len(), 2);
}

#[test]
fn clusters_wind_around() {
    // A U, closed at the bottom, and a dot inside it.
    let ranges = ranges_from_spans(vec![
        Span::new(0..1, 0),
        Span::new(4..5, 0),
        Span::new(0..1, 1),
        Span::new(2..3, 1),
        Span::new(4..5, 1),
        Span::new(0..1, 2),
        Span::new(4..5, 2),
        Span::new(0..5, 3),
    ])
    .unwrap();
    let u = cluster_at(&ranges, 0, 0).unwrap();
    assert!(u.contains(4, 0) && !u.contains(2, 1));
    assert_eq!(cluster_at(&ranges, 4, 1), Some(u));
    assert_eq!(cluster_at(&ranges, 2, 1), Some(rect_ranges(2, 1, 1, 1)));
}

#[test]
fn anchor_geometry() {
    // (anchor, frame-space sides, scaled axes).
    let cases = [
        (Anchor::Nw, (-1, -1), (true, true)),
        (Anchor::N, (0, -1), (false, true)),
        (Anchor::Ne, (1, -1), (true, true)),
        (Anchor::E, (1, 0), (true, false)),
        (Anchor::Se, (1, 1), (true, true)),
        (Anchor::S, (0, 1), (false, true)),
        (Anchor::Sw, (-1, 1), (true, true)),
        (Anchor::W, (-1, 0), (true, false)),
    ];
    for (anchor, sides, axes) in cases {
        assert_eq!(anchor.sides(), sides, "{anchor:?}");
        assert_eq!(anchor.axes(), axes, "{anchor:?}");
    }
    assert_eq!(Anchor::all(), cases.map(|c| c.0));
}

#[test]
fn fill_spans_maps_to_local_coords() {
    let mut pixels = vec![0u32; 4 * 3];
    fill_spans(&mut pixels, &[Span::new(11..13, 21)], Roi::new(10..14, 20..23));
    // (11, 21) and (12, 21) land at local (1, 1) and (2, 1).
    assert_eq!(pixels[5], PREVIEW_PIXEL);
    assert_eq!(pixels[6], PREVIEW_PIXEL);
    assert_eq!(pixels[0], 0);
    assert_eq!(pixels[2 * 4 + 3], 0);
}

#[test]
fn fill_spans_clears_stale_cells() {
    // Stale staging content (everything set) must not leak through:
    // only covered cells stay set.
    let mut pixels = vec![PREVIEW_PIXEL; 2 * 2];
    fill_spans(&mut pixels, &[Span::new(10..11, 20)], Roi::new(10..12, 20..22));
    assert_eq!(pixels[0], PREVIEW_PIXEL);
    assert!(pixels[1..].iter().all(|&px| px == 0));
}

#[test]
fn show_reposition_hide() {
    let mut preview = PreviewPlacement::new();
    assert!(!preview.is_visible());

    preview.show(Roi::new(10..14, 20..23));
    assert!(preview.is_visible());
    assert_eq!(preview.origin, [10, 20]);

    // Same-size move: only the origin changes.
    assert!(preview.try_reposition(Roi::new(12..16, 21..24)));
    assert_eq!(preview.origin, [12, 21]);
    // Different size: the caller must `show` again.
    assert!(!preview.try_reposition(Roi::new(12..17, 21..24)));

    preview.conceal();
    assert!(!preview.is_visible());
    assert!(!preview.try_reposition(Roi::new(10..14, 20..23)));
}

#[test]
fn union_of_regions() {
    assert_eq!(union_all(&vec![None, None]), None);
    assert_eq!(
        union_all(&vec![Some(rect_ranges(0, 0, 2, 1)), None, Some(rect_ranges(2, 0, 2, 1))]),
        Some(rect_ranges(0, 0, 4, 1))
    );
}

#[test]
fn parts_keep_what_is_not_selected() {
    let mut part = LayerSelection::fresh(rect_ranges(0, 0, 2, 1), Some(rect_ranges(1, 0, 4, 1)));
    assert_eq!(part.restore(), Some(rect_ranges(1, 0, 1, 1)));
    part.update(&rect_ranges(3, 0, 2, 1));
    assert_eq!(part.committed, Some(rect_ranges(0, 0, 2, 1).union(&rect_ranges(3, 0, 2, 1))));
    assert_eq!(part.background, Some(rect_ranges(1, 0, 2, 1)));
    part.committed = Some(rect_ranges(9, 9, 1, 1));
    part.rebase();
    assert_eq!(part.original, Some(rect_ranges(9, 9, 1, 1)));
    assert_eq!(part.restore(), None);
    part.committed = None;
    part.rebase();
    assert_eq!((&part.original, part.restore()), (&None, None));
    part.update(&rect_ranges(1, 0, 1, 1));
    assert_eq!(part.committed, Some(rect_ranges(1, 0, 1, 1)));
    assert_eq!(part.background, Some(rect_ranges(2, 0, 1, 1)));
}

fn idle() -> IdleEvent {
    IdleEvent {
        drag_started: false,
        press: None,
        clicked: false,
        drag_stopped: false,
        pointer: None,
        shift: false,
    }
}

#[test]
fn drags_begin_gestures() {
    let masks = mask_with_rect(10, 10);
    let mut tool = DragTool::default();
    let mut event = idle();
    event.drag_started = true;
    tool.step_idle(&masks, event);
    assert_eq!(tool.gesture, None);
    // Without a selection, a rectangle, on pixels and off them.
    event.press = Some((HoverPart::Inside, (12, 12)));
    tool.step_idle(&masks, event);
    assert_eq!(tool.gesture, Some(Gesture::Rect));
    // Off them the view moves where the tool is set up so.
    tool.set_pan_on_drag(true).set_layer(..);
    tool.step_idle(&masks, event);
    assert_eq!(tool.gesture, Some(Gesture::Rect));
    event.press = Some((HoverPart::Outside, (50, 50)));
    tool.step_idle(&masks, event);
    assert_eq!(tool.gesture, Some(Gesture::Pan));
    assert_eq!(tool.hover_cursor(None), Some(HoverCursor::AllScroll));
    tool.step_pan(false);
    assert_eq!(tool.gesture, Some(Gesture::Pan));
    tool.step_pan(true);
    assert_eq!(tool.gesture, None);
    // With a selection, its parts can be grabbed.
    let mut click = idle();
    click.clicked = true;
    click.pointer = Some((12, 12));
    tool.step_idle(&masks, click);
    assert!(tool.selection.is_some());
    assert_eq!(tool.hover_cursor(Some(HoverPart::Inside)), Some(HoverCursor::Move));
    assert_eq!(
        tool.hover_cursor(Some(HoverPart::Anchor(Anchor::E))),
        Some(HoverCursor::Resize(Anchor::E))
    );
    assert_eq!(tool.hover_cursor(Some(HoverPart::Rotate)), Some(HoverCursor::Grab));
    assert_eq!(tool.hover_cursor(Some(HoverPart::Outside)), None);
    event.press = Some((HoverPart::Rotate, (12, 5)));
    tool.step_idle(&masks, event);
    assert_eq!(tool.gesture, Some(Gesture::Transform));
    assert_eq!(tool.hover_cursor(None), Some(HoverCursor::Transform));
    event.press = Some((HoverPart::Outside, (12, 12)));
    tool.step_idle(&masks, event);
    assert_eq!(tool.gesture, Some(Gesture::Rect));
    assert_eq!(tool.hover_cursor(None), Some(HoverCursor::Crosshair));
    // A click that ends a drag selects nothing.
    click.drag_stopped = true;
    click.pointer = Some((50, 50));
    tool.step_idle(&masks, click);
    assert!(tool.selection.is_some());
}

#[test]
fn rect_gesture_selects_on_release() {
    let masks = mask_with_rect(10, 10);
    let mut tool = DragTool::default();
    tool.step_rect(&masks, None, true, false);
    assert_eq!(tool.gesture, Some(Gesture::Rect));
    tool.step_rect(&masks, Some(Roi::new(0..12, 0..12)), true, false);
    assert_eq!(tool.gesture, None);
    let selection = tool.selection.as_ref().unwrap();
    assert_eq!(selection.original(0), Some(&rect_ranges(10, 10, 2, 2)));
    tool.step_rect(&masks, None, false, false);
    assert_eq!(tool.gesture, None);
}

#[test]
fn transform_gesture_commits_on_release() {
    let mut masks = mask_with_rect(10, 10);
    let mut tool = Harness::default();
    select_rect_block(&mut tool, &masks, 10, 10);
    tool.tool.step_transform(&mut masks, None);
    assert_eq!(tool.tool.gesture, Some(Gesture::Transform));
    assert_eq!(layer_pixels(&masks), Some(rect_ranges(10, 10, 5, 5)));
    tool.drag_move((0.0, 0.0), (2.0, 1.0));
    let new = tool.transformed();
    tool.tool.step_transform(&mut masks, Some(new));
    assert_eq!(tool.tool.gesture, None);
    assert_eq!(layer_pixels(&masks), Some(rect_ranges(12, 11, 5, 5)));
    let mut without = DragTool::default();
    without.step_transform(&mut masks, None);
    assert_eq!(without.gesture, None);
}

#[test]
fn keys_cancel_delete_and_drop() {
    let mut masks = mask_with_rect(10, 10);
    let mut tool = Harness::default();
    select_rect_block(&mut tool, &masks, 10, 10);
    let tool = &mut tool.tool;
    // Nothing pressed: all goes on.
    tool.gesture = Some(Gesture::Transform);
    let start = tool.start_frame(&mut masks, false, false);
    assert_eq!(start.gesture, Some(Gesture::Transform));
    assert!(start.postpone_new_images && !start.cancelled_transform);
    // Escape cancels the gesture first, then drops the selection.
    let start = tool.start_frame(&mut masks, true, false);
    assert!(start.gesture.is_none() && start.cancelled_transform);
    assert!(tool.selection.is_some());
    let start = tool.start_frame(&mut masks, true, false);
    assert!(!start.cancelled_transform && !start.postpone_new_images);
    assert!(tool.selection.is_none());
    // Delete removes the pixels with the selection.
    tool.select_rect(&masks, Roi::new(10..15, 10..15), false);
    tool.start_frame(&mut masks, false, true);
    assert!(tool.selection.is_none());
    assert_eq!(layer_pixels(&masks), None);
    // A mask that changed underneath drops the selection and the gesture.
    masks.handle_events(false, true, false);
    tool.select_rect(&masks, Roi::new(10..15, 10..15), false);
    tool.gesture = Some(Gesture::Transform);
    masks.add(rect_ranges(50, 50, 1, 1));
    let start = tool.start_frame(&mut masks, false, false);
    assert!(start.gesture.is_none() && !start.postpone_new_images);
    assert!(tool.selection.is_none());
    // Delete does not use it either.
    tool.select_rect(&masks, Roi::new(10..15, 10..15), false);
    masks.add(rect_ranges(60, 60, 1, 1));
    let before = masks.subgroups_stack().clone();
    let tip = masks.last_history_action();
    let start = tool.start_frame(&mut masks, false, true);
    assert!(start.gesture.is_none() && !start.postpone_new_images);
    assert!(tool.selection.is_none());
    assert!(masks.subgroups_stack() == &before);
    assert_eq!(masks.last_history_action(), tip);
    assert_eq!(tool.layer, AffectedLayer::Unspecified);
}
