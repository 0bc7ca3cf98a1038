use imanot::{Roi, SortedRanges, Span};

fn from_spans(spans: &[Span]) -> SortedRanges {
    SortedRanges::try_from_span_iter(spans).unwrap()
}

#[test]
fn runs_are_merged_and_ordered() {
    let region = from_spans(&[
        Span::new(4..6, 2),
        Span::new(0..2, 1),
        Span::new(2..3, 1),
        Span::new(5..9, 2),
    ]);
    assert_eq!(region.spans(), &[Span::new(0..3, 1), Span::new(4..9, 2)]);
    assert_eq!(region.len(), 2);
    assert_eq!(region.roi(), Roi::new(0..9, 1..3));
    assert!(SortedRanges::try_from_span_iter(&[]).is_none());
}

#[test]
fn regions_are_sets_of_pixels() {
    let a = from_spans(&[Span::new(0..6, 0), Span::new(0..6, 2)]);
    let b = from_spans(&[Span::new(2..4, 0), Span::new(6..8, 0), Span::new(0..9, 2)]);
    assert_eq!(a.union(&b), from_spans(&[Span::new(0..8, 0), Span::new(0..9, 2)]));
    assert_eq!(
        a.subtract(&b),
        Some(from_spans(&[Span::new(0..2, 0), Span::new(4..6, 0)]))
    );
    assert_eq!(
        a.intersect(&b),
        Some(from_spans(&[Span::new(2..4, 0), Span::new(0..6, 2)]))
    );
    assert_eq!(a.subtract(&a), None);
    assert_eq!(a.intersect(&SortedRanges::from_span(Span::new(0..9, 1))), None);
    assert!(a.contains(5, 2) && !a.contains(6, 2) && !a.contains(0, 1));
}

#[test]
fn regions_are_clipped() {
    let region = SortedRanges::from_roi(Roi::new(3..8, 2..6));
    assert_eq!(region.len(), 4);
    assert_eq!(
        region.clip(Roi::new(0..5, 4..9)),
        Some(SortedRanges::from_roi(Roi::new(3..5, 4..6)))
    );
    assert_eq!(region.clip(Roi::new(8..9, 0..9)), None);
}

#[test]
fn bounds_of_a_union_are_the_union_of_bounds() {
    let a = from_spans(&[Span::new(3..5, 1)]);
    let b = from_spans(&[Span::new(0..1, 7), Span::new(9..10, 4)]);
    assert_eq!(a.union(&b).roi(), a.roi().union(&b.roi()));
    let roi = Roi::new(2..5, 3..7);
    assert_eq!((roi.width(), roi.height()), (3, 4));
    assert!(roi.contains(4, 6) && !roi.contains(5, 6));
    assert_eq!(Roi::from_dimensions(4, 2), Roi::new(0..4, 0..2));
}
