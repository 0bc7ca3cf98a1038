use imanot::{
    AffectedLayer, History, HistoryAction, HistoryActionAdd, HistoryActionClear,
    HistoryActionKind, HistoryActionReplace, Layer, PixelArea, PixelAreaStack, SortedRanges, Span,
};

fn ranges(start: u32, end: u32, y: u32) -> SortedRanges {
    SortedRanges::from_span(Span::new(start..end, y))
}

fn add(pixel_area: SortedRanges, layer: AffectedLayer, is_tracked: bool) -> HistoryAction {
    HistoryAction {
        kind: HistoryActionKind::Add(HistoryActionAdd { pixel_area }),
        layer,
        is_tracked,
    }
}

fn tracked_add(x: u32) -> HistoryAction {
    add(ranges(x, x + 1, 0), AffectedLayer::Unspecified, true)
}

fn untracked_add(x: u32) -> HistoryAction {
    add(ranges(x, x + 1, 0), AffectedLayer::Unspecified, false)
}

#[test]
fn undo_empty_returns_none() {
    let mut history = History::default();
    assert_eq!(None, history.undo());
}

#[test]
fn insert_undo_and_redo() {
    let mut history = History::default();
    let item = tracked_add(0);
    history.push(item.clone());
    assert_eq!(history.undo(), Some(&item));
    assert_eq!(history.undo(), None);
    assert_eq!(history.redo(), Some(&item));
}

#[test]
fn push_after_undo() {
    let mut history = History::default();
    let item = tracked_add(0);
    let item2 = tracked_add(10);
    history.push(item.clone());
    assert_eq!(history.undo(), Some(&item));
    assert_eq!(history.undo(), None);
    history.push(item2);
    assert_eq!(None, history.redo());
}

#[test]
fn undo_redo_group_tracked_and_untracked() {
    let mut history = History::default();
    let head = tracked_add(0);
    let member = untracked_add(10);

    history.push(head.clone());
    history.push(member.clone());

    assert_eq!(history.end(), 2);

    history.undo();
    assert_eq!(history.end(), 0);

    history.redo();
    assert_eq!(history.end(), 2);
}

#[test]
fn undo_redo_multiple_groups() {
    let mut history = History::default();
    let a = tracked_add(0);
    let b = untracked_add(10);
    let c = tracked_add(20);
    let d = untracked_add(30);

    history.push(a.clone());
    history.push(b.clone());
    history.push(c.clone());
    history.push(d.clone());
    assert_eq!(history.end(), 4);

    history.undo();
    assert_eq!(history.end(), 2);

    history.undo();
    assert_eq!(history.end(), 0);

    history.redo();
    assert_eq!(history.end(), 2);

    history.redo();
    assert_eq!(history.end(), 4);
}

#[test]
fn redo_stops_at_next_tracked() {
    let mut history = History::default();
    let a = tracked_add(0);
    let b = untracked_add(10);

    history.push(a.clone());
    history.push(b.clone());

    history.undo();
    assert_eq!(history.end(), 0);

    history.redo();
    assert_eq!(history.end(), 2);

    history.undo();
    assert_eq!(history.end(), 0);
}

#[test]
fn only_untracked_actions_cannot_undo() {
    let mut history = History::default();
    history.push(untracked_add(0));
    history.push(untracked_add(10));

    assert_eq!(history.end(), 2);

    assert_eq!(None, history.undo());
    assert_eq!(history.end(), 2);
}

fn reset(layer: AffectedLayer, is_tracked: bool) -> HistoryAction {
    HistoryAction { kind: HistoryActionKind::Reset, layer, is_tracked }
}

#[test]
fn consecutive_resets_different_layers_are_not_deduped() {
    let mut history = History::default();
    history.push(reset(AffectedLayer::Layer(0), false));
    history.push(reset(AffectedLayer::Layer(1), false));

    assert_eq!(history.len(), 2);
}

#[test]
fn repeated_resets_are_deduped() {
    let mut history = History::default();
    history.push(reset(AffectedLayer::Layer(1), true));
    history.push(reset(AffectedLayer::Layer(1), false));
    assert_eq!(history.len(), 1);
    // A repeated reset keeps what was taken back.
    history.push(tracked_add(0));
    history.undo();
    history.push(reset(AffectedLayer::Layer(1), true));
    assert_eq!(history.redo(), Some(&tracked_add(0)));
}

#[test]
fn undo_affected_layer() {
    let mut history = History::default();
    history.push(add(ranges(0, 1, 0), AffectedLayer::Layer(0), true));
    history.push(add(ranges(1, 2, 0), AffectedLayer::Layer(1), true));

    assert_eq!(history.take_dirty(), Some(AffectedLayer::Layer(1)));
    history.undo();
    assert_eq!(history.take_dirty(), Some(AffectedLayer::Layer(1)));
}

#[test]
fn saved_state_is_found_again() {
    let mut history = History::default();
    history.push(tracked_add(0));
    history.push(tracked_add(1));
    history.mark_not_dirty();
    history.undo();
    assert!(history.is_dirty());
    history.redo();
    assert!(!history.is_dirty());
    // The saved state is gone with the actions that led to it.
    history.undo();
    history.push(tracked_add(5));
    assert!(history.is_dirty());
    history.undo();
    history.redo();
    assert!(history.is_dirty());
    // An undo to the start has no layer to name but its own.
    let mut history = History::default();
    assert_eq!(history.take_dirty(), None);
    history.push(tracked_add(0));
    history.mark_not_dirty();
    history.undo();
    assert_eq!(history.take_dirty(), Some(AffectedLayer::Unspecified));
}

fn untracked_add_area(x: u32, y: u32) -> HistoryAction {
    add(ranges(x, x + 2, y), AffectedLayer::Unspecified, false)
}

fn replace_action(pixel_area: SortedRanges, layer: AffectedLayer) -> HistoryAction {
    HistoryAction {
        kind: HistoryActionKind::Replace(HistoryActionReplace { pixel_area }),
        layer,
        is_tracked: true,
    }
}

fn applied(history: &History) -> PixelAreaStack {
    PixelAreaStack::from_layer_vec(
        history.iter().iter().fold(Vec::new(), |acc: Vec<Layer>, r| r.apply(acc)),
    )
}

fn applied_spans(history: &History) -> Vec<(usize, Vec<Span>)> {
    applied(history)
        .iter()
        .collect()
        .into_iter()
        .map(|(i, area)| (i, area.pixels.spans().to_vec()))
        .collect()
}

#[test]
fn replace_specific_layer() {
    let mut history = History::default();
    history.push(untracked_add_area(0, 0));
    history.push(untracked_add_area(0, 1));
    history.push(replace_action(ranges(4, 6, 3), AffectedLayer::Layer(1)));

    assert_eq!(
        applied_spans(&history),
        vec![(0, vec![Span::new(0..2, 0)]), (1, vec![Span::new(4..6, 3)])]
    );
}

#[test]
fn replace_unspecified_replaces_all_existing_layers() {
    let mut history = History::default();
    history.push(untracked_add_area(0, 0));
    history.push(untracked_add_area(0, 1));
    history.push(replace_action(ranges(4, 6, 3), AffectedLayer::Unspecified));

    assert_eq!(
        applied_spans(&history),
        vec![(0, vec![Span::new(4..6, 3)]), (1, vec![Span::new(4..6, 3)])]
    );
}

#[test]
fn replace_range_of_layers() {
    let mut history = History::default();
    history.push(untracked_add_area(0, 0));
    history.push(untracked_add_area(0, 1));
    history.push(untracked_add_area(0, 2));
    history.push(replace_action(ranges(4, 6, 3), AffectedLayer::Range(1, Some(3))));

    assert_eq!(
        applied_spans(&history),
        vec![
            (0, vec![Span::new(0..2, 0)]),
            (1, vec![Span::new(4..6, 3)]),
            (2, vec![Span::new(4..6, 3)]),
        ]
    );
}

#[test]
fn replace_makes_missing_layers() {
    let mut history = History::default();
    history.push(replace_action(ranges(4, 6, 3), AffectedLayer::Range(1, Some(3))));
    history.push(replace_action(ranges(0, 1, 0), AffectedLayer::Range(2, None)));
    history.push(replace_action(ranges(0, 1, 0), AffectedLayer::Range(9, Some(9))));
    assert_eq!(applied(&history).max_layer(), 3);
    assert_eq!(
        applied_spans(&history),
        vec![(1, vec![Span::new(4..6, 3)]), (2, vec![Span::new(0..1, 0)])]
    );
}

#[test]
fn clear_and_reset_never_make_layers() {
    let mut history = History::default();
    history.push(untracked_add_area(0, 0));
    let clear = |ranges, layer| HistoryAction {
        kind: HistoryActionKind::Clear(HistoryActionClear { ranges }),
        layer,
        is_tracked: true,
    };
    history.push(clear(ranges(0, 9, 0), AffectedLayer::Layer(4)));
    history.push(reset(AffectedLayer::Layer(7), true));
    assert_eq!(applied(&history).max_layer(), 1);
    // Clearing everything leaves an empty layer in its color.
    history.push(clear(ranges(0, 9, 0), AffectedLayer::Unspecified));
    assert_eq!(applied(&history).max_layer(), 1);
    assert!(applied(&history).is_empty());
    // Resetting everything drops the layers.
    history.push(reset(AffectedLayer::Unspecified, true));
    assert_eq!(applied(&history).max_layer(), 0);
}

#[test]
fn one_undo_reverts_a_group() {
    let mut history = History::default();
    history.push(tracked_add(0));
    let before = applied(&history);
    history.push(tracked_add(3));
    history.push(untracked_add(5));
    history.push(untracked_add(7));
    assert!(applied(&history) != before);
    assert_eq!(history.undo(), Some(&tracked_add(3)));
    assert!(applied(&history) == before);
    assert_eq!(history.redo(), Some(&tracked_add(3)));
    assert_eq!(applied(&history).max_layer(), 4);
}

#[test]
fn action_layer_and_equality() {
    let action = add(ranges(0, 1, 0), AffectedLayer::Layer(2), true);
    assert_eq!(action.layer(), AffectedLayer::Layer(2));
    assert_eq!(action, action.clone());
    assert_ne!(action, add(ranges(0, 2, 0), AffectedLayer::Layer(2), true));
    assert_ne!(action, add(ranges(0, 1, 0), AffectedLayer::Layer(2), false));
    assert_ne!(action, replace_action(ranges(0, 1, 0), AffectedLayer::Layer(2)));
}

#[test]
fn allow_unordered() {
    let stack = PixelAreaStack::from_iter(vec![
        (10, PixelArea::single_range_total_black(0, 0, 10)),
        (1, PixelArea::single_range_total_black(0, 0, 10)),
    ]);
    assert!(stack.get(1).is_some());
    assert!(stack.get(10).is_some());
}

#[test]
fn test_end_index() {
    let example = PixelArea::from_ranges(ranges(0, 10, 0), [0, 0, 0, 255]);
    let x = PixelAreaStack::from_iter(vec![
        (1, example.clone()),
        (3, example.clone()),
        (5, example),
    ]);

    let indices: Vec<usize> = x.iter().collect().into_iter().map(|(i, _)| i).collect();
    assert_eq!(vec![1, 3, 5], indices);
}

#[test]
fn set_color_auto_fills_gaps() {
    let mut stack = PixelAreaStack::default();
    stack.set_layer_color(5, [255, 0, 0, 255]);
    assert_eq!(stack.max_layer(), 6);
    assert!(stack.is_empty());
    assert_eq!(stack.layer_color(5), Some([255, 0, 0, 255]));
}

#[test]
fn stack_is_walked_from_both_ends() {
    let example = PixelArea::single_range_total_black(0, 0, 1);
    let stack = PixelAreaStack::from_iter(vec![
        (1, example.clone()),
        (3, example.clone()),
        (6, example.clone()),
    ]);
    let mut iter = stack.iter();
    assert_eq!(iter.next_back().map(|e| e.0), Some(6));
    assert_eq!(iter.next().map(|e| e.0), Some(1));
    assert_eq!(iter.next_back().map(|e| e.0), Some(3));
    assert!(iter.next().is_none());
    assert!(iter.next_back().is_none());
    let mut some = stack.iter_filtered(AffectedLayer::Range(2, Some(6)));
    assert_eq!(some.next().map(|e| e.0), Some(3));
    assert!(some.next().is_none());
    let all: Vec<usize> = stack.into_iter().into_iter().map(|e| e.0).collect();
    assert_eq!(all, vec![1, 3, 6]);
}

#[test]
fn layers_change_color_and_pixels() {
    let mut layer = Layer::Empty([1, 2, 3, 4]);
    assert_eq!(layer.clear_ranges(), None);
    layer.set_ranges(ranges(0, 3, 0));
    assert_eq!(layer.color(), [1, 2, 3, 4]);
    layer.set_color([5, 5, 5, 5]);
    assert_eq!(layer.as_filled().map(PixelArea::range_len), Some(1));
    assert_eq!(layer.clear_ranges(), Some(ranges(0, 3, 0)));
    assert_eq!(layer, Layer::Empty([5, 5, 5, 5]));
}

#[test]
fn areas_from_spans() {
    assert!(PixelArea::new(&[], [0; 4]).is_none());
    let area = PixelArea::new(&[Span::new(0..2, 1), Span::new(1..4, 1)], [1, 2, 3, 4]).unwrap();
    assert_eq!(area.pixels.spans(), &[Span::new(0..4, 1)]);
    assert_eq!(
        PixelArea::single_pixel_total_color(2, 3, 4, [9; 4]),
        PixelArea::from_ranges(ranges(2, 6, 3), [9; 4])
    );
}

#[test]
fn areas_are_placed_in_any_order() {
    let a = PixelArea::single_range_total_black(0, 0, 1);
    let b = PixelArea::single_range_total_black(5, 2, 3);
    let one = PixelAreaStack::from_iter(vec![(4, a.clone()), (2, b.clone())]);
    let other = PixelAreaStack::from_iter(vec![(2, b.clone()), (4, a.clone())]);
    assert!(one == other);
    assert_eq!(one.max_layer(), 5);
    // Of two areas for one layer, the later stays.
    let twice = PixelAreaStack::from_iter(vec![(0, a), (0, b.clone())]);
    assert_eq!(twice.get(0), Some(&b));
}

#[test]
fn pushing_is_applying() {
    let mut history = History::default();
    let actions = [
        tracked_add(0),
        add(ranges(3, 5, 1), AffectedLayer::Range(0, Some(3)), true),
        reset(AffectedLayer::Layer(1), true),
        reset(AffectedLayer::Layer(1), true),
        add(ranges(7, 8, 1), AffectedLayer::Layer(1), false),
    ];
    let mut layers: Vec<Layer> = Vec::new();
    for action in actions {
        layers = action.apply(layers);
        history.push(action);
        assert!(applied(&history) == PixelAreaStack::from_layer_vec(layers.clone()));
    }
    assert_eq!(history.len(), 4);
}

#[test]
fn unsaved_changes_always_name_a_layer() {
    let mut history = History::default();
    history.push(add(ranges(0, 1, 0), AffectedLayer::Layer(4), true));
    history.mark_not_dirty();
    history.undo();
    history.push(reset(AffectedLayer::Layer(2), true));
    history.undo();
    assert_eq!(history.end(), 0);
    assert!(history.is_dirty());
    assert_eq!(history.take_dirty(), Some(AffectedLayer::Layer(2)));
}
