use imanot::composite::{composite_layer_over, composite_scalar, tint};
use imanot::{
    AffectedLayer, History, HistoryAction, HistoryActionAdd, HistoryActionClear,
    HistoryActionKind, HistoryActionReplace, MaskActionBuilder, MaskDefaultActions, MaskImage,
    MaskSettings, PixelArea, PixelAreaStack, Roi, SortedRanges, Span,
};

fn mask_10(init: Vec<PixelArea>) -> MaskImage {
    MaskImage::new([10, 10], PixelAreaStack::from(init), History::default())
}

fn ranges(start: u32, end: u32, y: u32) -> SortedRanges {
    SortedRanges::from_span(Span::new(start..end, y))
}

fn from_spans(spans: &[Span]) -> SortedRanges {
    SortedRanges::try_from_span_iter(spans).unwrap()
}

fn rect_spans(x: u32, y: u32, w: u32, h: u32) -> Vec<Span> {
    SortedRanges::from_roi(Roi::new(x..x + w, y..y + h)).spans().to_vec()
}

fn subgroup_spans_flat(mask: &MaskImage) -> Vec<(usize, Span)> {
    mask.subgroups_stack()
        .iter()
        .collect()
        .into_iter()
        .flat_map(|(i, area)| area.pixels.spans().iter().map(move |s| (i, *s)).collect::<Vec<_>>())
        .collect()
}

#[test]
fn affected_layer_affects() {
    assert!(AffectedLayer::Unspecified.affects(0));
    assert!(AffectedLayer::Unspecified.affects(10));
    assert!(AffectedLayer::Layer(2).affects(2));
    assert!(!AffectedLayer::Layer(2).affects(3));
    assert!(AffectedLayer::Range(1, Some(4)).affects(1));
    assert!(AffectedLayer::Range(1, Some(4)).affects(3));
    assert!(!AffectedLayer::Range(1, Some(4)).affects(4));
    assert!(!AffectedLayer::Range(1, Some(4)).affects(0));
    assert!(AffectedLayer::Range(2, None).affects(2));
    assert!(AffectedLayer::Range(2, None).affects(100));
    assert!(!AffectedLayer::Range(2, None).affects(1));
}

#[test]
fn affected_layer_conversions() {
    assert_eq!(AffectedLayer::from(3), AffectedLayer::Layer(3));
    assert_eq!(AffectedLayer::from(1..4), AffectedLayer::Range(1, Some(4)));
    assert_eq!(AffectedLayer::from(2..), AffectedLayer::Range(2, None));
    assert_eq!(AffectedLayer::from(1..=4), AffectedLayer::Range(1, Some(5)));
    assert_eq!(AffectedLayer::from(1..=usize::MAX), AffectedLayer::Range(1, None));
    assert_eq!(AffectedLayer::from(..4), AffectedLayer::Range(0, Some(4)));
    assert_eq!(AffectedLayer::from(..=4), AffectedLayer::Range(0, Some(5)));
    assert_eq!(AffectedLayer::from(..=usize::MAX), AffectedLayer::Range(0, None));
    assert_eq!(AffectedLayer::from(..), AffectedLayer::Range(0, None));
    assert_eq!(AffectedLayer::default(), AffectedLayer::Unspecified);
}

#[test]
fn add_to_range_of_layers() {
    let mut mask_image = mask_10(Vec::new());
    mask_image.on_layer(AffectedLayer::Range(0, Some(2))).add(ranges(1, 3, 0));
    assert_eq!(
        subgroup_spans_flat(&mask_image),
        vec![(0, Span::new(1..3, 0)), (1, Span::new(1..3, 0))]
    );
}

#[test]
fn add_to_open_ended_range_of_layers() {
    let mut mask_image = mask_10(Vec::new());
    mask_image.add(ranges(1, 3, 0));
    mask_image.add(ranges(4, 6, 0));
    mask_image.on_layer(AffectedLayer::Range(1, None)).add(ranges(2, 5, 0));
    assert_eq!(
        subgroup_spans_flat(&mask_image),
        vec![(0, Span::new(1..3, 0)), (1, Span::new(2..6, 0))]
    );
}

#[test]
fn clear_range_of_layers() {
    let mut mask_image = mask_10(Vec::new());
    mask_image.add(ranges(1, 9, 0));
    mask_image.add(ranges(2, 8, 0));
    mask_image.on_layer(AffectedLayer::Range(0, Some(2))).clear(&rect_spans(0, 0, 4, 1));
    assert_eq!(
        subgroup_spans_flat(&mask_image),
        vec![(0, Span::new(4..9, 0)), (1, Span::new(4..8, 0))]
    );
}

#[test]
fn reset_range_of_layers() {
    let mut mask_image = mask_10(Vec::new());
    mask_image.add(ranges(1, 9, 0));
    mask_image.add(ranges(2, 8, 0));
    mask_image.add(ranges(3, 7, 0));
    mask_image.on_layer(AffectedLayer::Range(0, Some(2))).reset();
    assert_eq!(subgroup_spans_flat(&mask_image), vec![(2, Span::new(3..7, 0))]);
}

#[test]
fn composite_matches_scalar() {
    let mut rng = 0x9E3779B97F4A7C15u64;
    let mut next = move || {
        rng ^= rng << 13;
        rng ^= rng >> 7;
        rng ^= rng << 17;
        rng
    };
    let mut pixels: Vec<u32> = (0..1000)
        .map(|_| {
            let x = next();
            let a = x as u8;
            u32::from_le_bytes([
                ((x >> 24) as u8).min(a),
                ((x >> 16) as u8).min(a),
                ((x >> 8) as u8).min(a),
                a,
            ])
        })
        .collect();
    let expected = {
        let mut e = pixels.clone();
        let a = ((next() >> 8) % 256) as u8;
        let t = 255 - a;
        let layer = [
            (next() as u8).min(a),
            ((next() >> 8) as u8).min(a),
            ((next() >> 16) as u8).min(a),
            a,
        ];
        composite_scalar(&mut e, t, layer);
        (e, t, layer)
    };
    composite_layer_over(&mut pixels, expected.1, expected.2);
    assert_eq!(
        pixels,
        expected.0,
        "first mismatch at {:?}",
        pixels.iter().zip(&expected.0).position(|(a, b)| a != b)
    );
}

#[test]
fn composite_blends_each_channel() {
    let mut pixels = [u32::from_le_bytes([100, 50, 0, 200]), 0];
    composite_layer_over(&mut pixels, 127, [10, 20, 30, 128]);
    assert_eq!(pixels[0].to_le_bytes(), [10 + 49, 20 + 24, 30, 128 + 99]);
    assert_eq!(pixels[1].to_le_bytes(), [10, 20, 30, 128]);
    // Channels wrap like bytes do.
    let mut pixels = [u32::from_le_bytes([255, 0, 0, 255])];
    composite_scalar(&mut pixels, 255, [1, 0, 0, 0]);
    assert_eq!(pixels[0].to_le_bytes(), [0, 0, 0, 255]);
    // An opaque layer overwrites.
    let mut pixels = [0xFFFF_FFFF];
    composite_layer_over(&mut pixels, 0, [1, 2, 3, 255]);
    assert_eq!(pixels[0].to_le_bytes(), [1, 2, 3, 255]);
}

#[test]
fn tint_rounds_to_the_nearest() {
    for alpha in 0..=255u32 {
        for value in 0..=255u32 {
            let expected = ((2 * value * alpha + 255) / 510) as u8;
            let tinted = tint([value as u8, 0, 255, alpha as u8], 255);
            assert_eq!(tinted, [expected, 0, alpha as u8, alpha as u8]);
        }
    }
    // The alpha is dimmed first, and rounded down.
    assert_eq!(tint([255, 0, 0, 255], 128), [128, 0, 0, 128]);
    assert_eq!(tint([255, 255, 255, 1], 254), [0, 0, 0, 0]);
}

#[test]
fn add_area_with_overlap() {
    let mut mask_image = mask_10(Vec::new());
    mask_image.add(ranges(1, 5, 0));
    mask_image.add(ranges(2, 4, 0));
    assert_eq!(
        subgroup_spans_flat(&mask_image),
        vec![(0, Span::new(1..5, 0)), (1, Span::new(2..4, 0))]
    );
}

#[test]
fn add_area_non_overlapping_parts_remove_completely() {
    let mut mask_image = mask_10(Vec::new());
    mask_image.keep_overlapping(false).add(ranges(1, 5, 0));
    mask_image.keep_overlapping(false).add(ranges(2, 4, 0));
    assert_eq!(subgroup_spans_flat(&mask_image), vec![(0, Span::new(1..5, 0))]);
}

#[test]
fn add_area_non_overlapping_parts_remove_partially() {
    let mut mask_image = mask_10(Vec::new());
    mask_image.keep_overlapping(false).add(ranges(1, 5, 0));
    mask_image.keep_overlapping(false).add(ranges(2, 6, 0));
    assert_eq!(
        subgroup_spans_flat(&mask_image),
        vec![(0, Span::new(1..5, 0)), (1, Span::new(5..6, 0))]
    );
}

#[test]
fn clear_should_remove_multiple_overlapping_areas_start() {
    let mut mask_image = mask_10(Vec::new());
    mask_image.add(ranges(1, 9, 0));
    mask_image.add(ranges(2, 8, 0));
    mask_image.clear(&rect_spans(0, 0, 4, 1));
    assert_eq!(
        subgroup_spans_flat(&mask_image),
        vec![(0, Span::new(4..9, 0)), (1, Span::new(4..8, 0))]
    );
}

#[test]
fn clear_should_remove_multiple_overlapping_areas_end() {
    let mut mask_image = mask_10(Vec::new());
    mask_image.add(ranges(2, 8, 0));
    mask_image.add(ranges(1, 9, 0));
    mask_image.clear(&rect_spans(5, 0, 5, 1));
    assert_eq!(
        subgroup_spans_flat(&mask_image),
        vec![(0, Span::new(2..5, 0)), (1, Span::new(1..5, 0))]
    );
}

#[test]
fn clear_should_remove_multiple_overlapping_areas_within() {
    let mut mask_image = mask_10(Vec::new());
    mask_image.add(ranges(1, 9, 0));
    mask_image.add(ranges(2, 8, 0));
    mask_image.clear(&rect_spans(4, 0, 2, 1));
    assert_eq!(
        subgroup_spans_flat(&mask_image),
        vec![
            (0, Span::new(1..4, 0)),
            (0, Span::new(6..9, 0)),
            (1, Span::new(2..4, 0)),
            (1, Span::new(6..8, 0)),
        ]
    );
}

#[test]
fn iter_sorted() {
    let mut x = mask_10(vec![
        PixelArea::with_black_color(&[Span::new(2..7, 0), Span::new(2..7, 1)]).unwrap(),
        PixelArea::from_ranges(ranges(2, 7, 3), [0, 0, 0, 255]),
    ]);
    x.add(from_spans(&[Span::new(2..9, 2), Span::new(9..10, 3), Span::new(2..9, 4)]));
    let group_sequence: Vec<_> =
        x.subgroups_ordered_spans().into_iter().map(|(group_id, _)| group_id).collect();
    assert_eq!(group_sequence, vec![0, 0, 2, 1, 2, 2]);
}

#[test]
fn non_overlapping_no_pixel_overlap_with_multiple_layers() {
    let mut mask_image = mask_10(vec![]);
    mask_image.add(from_spans(&[Span::new(0..5, 0), Span::new(2..5, 1)]));
    mask_image.add(from_spans(&[Span::new(0..5, 3), Span::new(0..3, 5)]));
    let new_mask = from_spans(&[
        Span::new(3..8, 0),
        Span::new(8..10, 2),
        Span::new(0..3, 3),
        Span::new(9..10, 4),
        Span::new(0..4, 5),
    ]);
    mask_image.keep_overlapping(false).add(new_mask);

    let subgroups = mask_image.subgroups_stack();
    assert_eq!(subgroups.max_layer(), 3);

    let pixels_of = |area: &PixelArea| -> Vec<(u32, u32)> {
        area.pixels
            .spans()
            .iter()
            .flat_map(|s| (s.start..s.end).map(|x| (x, s.y)).collect::<Vec<_>>())
            .collect()
    };
    let mut subgroups_iter = subgroups.iter();
    let mut all_existing_pixels = pixels_of(subgroups_iter.next().unwrap().1);
    all_existing_pixels.extend(pixels_of(subgroups_iter.next().unwrap().1));
    let new_layer_pixels = pixels_of(subgroups_iter.next().unwrap().1);
    for pixel in &new_layer_pixels {
        assert!(
            !all_existing_pixels.contains(pixel),
            "Pixel {pixel:?} exists in both new layer and existing layers"
        );
    }
    assert_eq!(new_layer_pixels.len(), 3 + 2 + 1 + 1);
}

#[test]
fn add_to_existing_overlapping_doesnt_fail() {
    let mut history = History::default();
    history.push(HistoryAction {
        kind: HistoryActionKind::Add(HistoryActionAdd { pixel_area: ranges(0, 2, 0) }),
        layer: AffectedLayer::Unspecified,
        is_tracked: true,
    });
    history.push(HistoryAction {
        kind: HistoryActionKind::Add(HistoryActionAdd { pixel_area: ranges(1, 5, 0) }),
        layer: AffectedLayer::Unspecified,
        is_tracked: true,
    });
    let mut x = MaskImage::new([10, 10], PixelAreaStack::default(), history);
    x.keep_overlapping(false).add(ranges(2, 6, 0));
    let group_sequence: Vec<_> =
        x.subgroups_ordered_spans().into_iter().map(|(group_id, _)| group_id).collect();
    assert_eq!(group_sequence, vec![0, 1, 2]);
}

#[test]
fn without_tracking_joins_the_group() {
    let mut mask = mask_10(vec![]);
    mask.add(ranges(0, 1, 0));
    mask.without_tracking().add(ranges(3, 4, 0));
    mask.without_tracking().on_layer(AffectedLayer::Layer(5)).keep_overlapping(true).add(ranges(
        6, 7, 0,
    ));
    assert_eq!(mask.subgroups_stack().max_layer(), 6);
    mask.handle_events(false, true, false);
    assert!(mask.subgroups_stack().is_empty());
    mask.handle_events(true, true, false);
    assert_eq!(mask.subgroups_stack().iter().collect().len(), 3);
}

fn image_bytes(image: &[u32], p: usize) -> [u8; 4] {
    image[p].to_le_bytes()
}

#[test]
fn sources_draw_layers_over_each_other() {
    let mut mask = MaskImage::new(
        [4, 2],
        PixelAreaStack::from(vec![
            PixelArea::from_ranges(ranges(0, 3, 0), [255, 0, 0, 255]),
            PixelArea::from_ranges(ranges(1, 4, 0), [0, 0, 255, 255]),
        ]),
        History::default(),
    );
    let first = mask.sources();
    assert!(first.visible);
    let image = first.upload.unwrap();
    assert_eq!(image.len(), 8);
    // 128 of 255 parts of each layer.
    assert_eq!(image_bytes(&image, 0), [128, 0, 0, 128]);
    assert_eq!(image_bytes(&image, 1), [63, 0, 128, 128 + 63]);
    assert_eq!(image_bytes(&image, 3), [0, 0, 128, 128]);
    assert_eq!(image[4], 0);
    // Nothing changed: nothing to upload.
    let again = mask.sources();
    assert!(again.upload.is_none() && again.visible);
    // Hidden and shown again.
    mask.handle_events(false, false, true);
    assert!(!mask.sources().visible);
    mask.handle_events(false, false, true);
    assert!(mask.sources().visible);
    // The active layer is drawn with another opacity.
    mask.set_active_layer(Some(0));
    let image = mask.sources().upload.unwrap();
    assert_eq!(image_bytes(&image, 0), [200, 0, 0, 200]);
    assert_eq!(image_bytes(&image, 3), [0, 0, 128, 128]);
    // Full opacity overwrites.
    let mut settings = MaskSettings::default();
    settings.default_opacity = 255;
    settings.active_opacity = 0;
    mask.set_settings(settings);
    mask.set_active_layer(None);
    let image = mask.sources().upload.unwrap();
    assert_eq!(image_bytes(&image, 1), [0, 0, 255, 255]);
    // No opacity: the layer is not drawn.
    mask.set_active_layer(Some(1));
    let image = mask.sources().upload.unwrap();
    assert_eq!(image_bytes(&image, 1), [255, 0, 0, 255]);
    assert_eq!(image[3], 0);
}

#[test]
fn sources_stop_at_the_end_of_the_image() {
    let below = from_spans(&[Span::new(0..1, 0), Span::new(1..3, 1), Span::new(0..2, 5)]);
    let mut mask = MaskImage::new(
        [2, 2],
        PixelAreaStack::from(vec![PixelArea::from_ranges(below, [0, 0, 0, 255])]),
        History::default(),
    );
    let image = mask.sources().upload.unwrap();
    assert_eq!(image, vec![0x8000_0000, 0, 0, 0x8000_0000]);
}

#[test]
fn settings_have_two_opacities() {
    let settings = MaskSettings::default();
    assert_eq!(settings.opacity(false), 128);
    assert_eq!(settings.opacity(true), 200);
    assert_eq!(settings, MaskSettings::default());
}

#[test]
fn hover_follows_the_topmost_layer() {
    let mut mask = mask_10(vec![]);
    mask.add(ranges(0, 5, 1));
    mask.add(ranges(3, 8, 1));
    assert_eq!(mask.find_layer_at((4, 1)), Some(1));
    assert_eq!(mask.active_subgroup_at((0, 1)), Some(0));
    assert_eq!(mask.find_layer_at((4, 2)), None);
    mask.update_hover_layer(Some((4, 1)));
    assert_eq!((mask.hover_layer(), mask.active_layer()), (Some(1), Some(1)));
    mask.update_hover_layer(Some((0, 1)));
    assert_eq!((mask.hover_layer(), mask.active_subgroup()), (Some(0), Some(0)));
    // A position that is no pixel is outside.
    mask.update_hover_layer(Some((u32::MAX as usize + 1, 0)));
    assert_eq!((mask.hover_layer(), mask.active_layer()), (None, None));
    // Leaving again keeps what was set since.
    mask.set_active_subgroup(Some(1));
    mask.update_hover_layer(None);
    assert_eq!((mask.hover_layer(), mask.active_layer()), (None, Some(1)));
}

#[test]
fn base_layers_lie_under_the_edits() {
    let mut mask = mask_10(vec![]);
    mask.on_layer(AffectedLayer::Layer(1)).add(ranges(0, 2, 0));
    let area = PixelArea::from_ranges(ranges(4, 6, 0), [9, 8, 7, 255]);
    assert_eq!(mask.set_base_layer(1, Some(area.clone())), None);
    assert_eq!(
        subgroup_spans_flat(&mask),
        vec![(1, Span::new(0..2, 0)), (1, Span::new(4..6, 0))]
    );
    assert_eq!(mask.layer_color(1), Some([9, 8, 7, 255]));
    assert_eq!(mask.layer_color(2), None);
    mask.set_layer_color(2, [1, 1, 1, 1]);
    assert_eq!(mask.layer_color(2), Some([1, 1, 1, 1]));
    assert_eq!(mask.set_base_layer(1, None), Some(area));
    assert_eq!(subgroup_spans_flat(&mask), vec![(1, Span::new(0..2, 0))]);
    let before = mask.replace_base_layers(PixelAreaStack::default());
    assert_eq!(before.max_layer(), 3);
    assert_eq!(mask.layer_color(0), None);
    assert_eq!(mask.size(), [10, 10]);
}

#[test]
fn colors_change_with_layers_and_actions() {
    let mut mask = mask_10(vec![PixelArea::single_range_total_black(0, 0, 1)]);
    assert_eq!(mask.random_seed(), 1);
    assert_eq!(mask.next_color(), imanot::random_color_from_seed(1));
    mask.add(ranges(5, 6, 0));
    assert_eq!(mask.random_seed(), 2);
    assert_ne!(imanot::random_color_from_seed(1), imanot::random_color_from_seed(2));
    assert_eq!(imanot::random_color_from_seed(0), [53, 101, 29, 255]);
    // A new layer gets the color of its position.
    assert_eq!(
        mask.subgroups_stack().layer_color(1),
        Some(imanot::random_color_from_seed(1))
    );
}

#[test]
fn dirty_until_saved() {
    let mut mask = mask_10(vec![]);
    assert!(!mask.is_dirty());
    mask.on_layer(AffectedLayer::Layer(3)).add(ranges(0, 1, 0));
    assert!(mask.is_dirty());
    assert_eq!(mask.take_dirty(), Some(AffectedLayer::Layer(3)));
    assert_eq!(mask.take_dirty(), None);
    mask.handle_events(false, true, false);
    assert!(mask.is_dirty());
    mask.mark_not_dirty();
    assert!(!mask.is_dirty());
    assert_eq!(mask.last_history_action(), None);
}

#[test]
fn actions_fit_the_image() {
    let mask = mask_10(vec![]);
    let action = |kind| HistoryAction { kind, layer: AffectedLayer::Unspecified, is_tracked: true };
    let add = |r| action(HistoryActionKind::Add(HistoryActionAdd { pixel_area: r }));
    assert!(mask.fits_image(&add(ranges(0, 10, 9))));
    assert!(!mask.fits_image(&add(ranges(0, 11, 9))));
    assert!(!mask.fits_image(&add(ranges(0, 10, 10))));
    assert!(mask.fits_image(&action(HistoryActionKind::Reset)));
    assert!(!mask.fits_image(&action(HistoryActionKind::Clear(HistoryActionClear {
        ranges: ranges(9, 12, 0)
    }))));
    assert!(!mask.fits_image(&action(HistoryActionKind::Replace(HistoryActionReplace {
        pixel_area: ranges(9, 12, 0)
    }))));
}

#[test]
fn ranges_of_layers_affect_what_they_contain() {
    for layer in 0..6 {
        assert_eq!(AffectedLayer::from(1..=4).affects(layer), (1..=4).contains(&layer));
        assert_eq!(AffectedLayer::from(1..4).affects(layer), (1..4).contains(&layer));
        assert_eq!(AffectedLayer::from(..=3).affects(layer), layer <= 3);
        assert_eq!(AffectedLayer::from(2..).affects(layer), layer >= 2);
    }
    assert!(AffectedLayer::from(3..=usize::MAX).affects(usize::MAX));
    assert!(!AffectedLayer::from(4..2).affects(3));
}

#[test]
fn division_by_255_is_exact() {
    for c in 0..=255u32 {
        let mut pixels: Vec<u32> = vec![c * 0x0101_0101; 256];
        for (t, pixel) in pixels.iter_mut().enumerate() {
            composite_layer_over(std::slice::from_mut(pixel), t as u8, [0; 4]);
        }
        for (t, pixel) in pixels.iter().enumerate() {
            assert_eq!(*pixel, (c * t as u32 / 255) * 0x0101_0101);
        }
    }
}

#[test]
fn undo_and_redo_give_the_layers_back() {
    let mut mask = mask_10(vec![]);
    mask.add(ranges(0, 4, 0));
    mask.clear(&rect_spans(1, 0, 2, 1));
    let full = mask.subgroups_stack().clone();
    mask.handle_events(false, true, false);
    let undone = mask.subgroups_stack().clone();
    assert!(undone != full);
    mask.handle_events(true, true, false);
    assert!(mask.subgroups_stack() == &full);
    mask.handle_events(false, true, false);
    assert!(mask.subgroups_stack() == &undone);
    // Nothing left to redo after an edit.
    mask.reset();
    mask.handle_events(true, true, false);
    assert_eq!(mask.subgroups_stack().max_layer(), 0);
}
