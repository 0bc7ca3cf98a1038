//! The live preview of a selection: a small image of its pixels, painted over the mask.
use crate::ranges::{Roi, SortedRanges};
use crate::span::{covers_upto, lemma_upto_step, Span};
use crate::stroke::PREVIEW_PIXEL;
use vstd::prelude::*;

verus! {

/// Where a pixel is in the row-by-row image of a rectangle.
pub open spec fn cell(bounds: Roi, x: int, y: int) -> int {
    (y - bounds.y_start) * (bounds.x_end - bounds.x_start) + (x - bounds.x_start)
}

/// Whether the run is inside the rectangle.
pub open spec fn run_inside(bounds: Roi, run: Span) -> bool {
    &&& run.start < run.end
    &&& bounds.x_start <= run.start
    &&& run.end <= bounds.x_end
    &&& bounds.y_start <= run.y < bounds.y_end
}

/// Whether each run starts no earlier than the one before it ends, counted row by row.
pub open spec fn cells_in_order(bounds: Roi, runs: Seq<Span>) -> bool {
    forall|j: int, k: int|
        0 <= j < k < runs.len() ==> cell(bounds, runs[j].end as int, runs[j].y as int) <= cell(
            bounds,
            runs[k].start as int,
            runs[k].y as int,
        )
}

proof fn lemma_cell(bounds: Roi, x: int, y: int)
    requires
        bounds.wf(),
        bounds.x_start <= x <= bounds.x_end,
        bounds.y_start <= y < bounds.y_end,
    ensures
        0 <= cell(bounds, x, y) <= (bounds.x_end - bounds.x_start) * (bounds.y_end
            - bounds.y_start),
        0 <= (y - bounds.y_start) * (bounds.x_end - bounds.x_start),
        x < bounds.x_end ==> cell(bounds, x, y) < (bounds.x_end - bounds.x_start) * (bounds.y_end
            - bounds.y_start),
{
    let w = bounds.x_end - bounds.x_start;
    let h = bounds.y_end - bounds.y_start;
    let row = y - bounds.y_start;
    assert(0 <= row * w && row * w + w <= w * h) by (nonlinear_arith)
        requires
            0 <= row < h,
            0 < w,
    ;
}

proof fn lemma_cell_order(bounds: Roi, x: int, y: int, a: int, b: int)
    requires
        bounds.wf(),
        bounds.x_start <= x < bounds.x_end,
        bounds.x_start <= a <= bounds.x_end,
    ensures
        y == b ==> (cell(bounds, x, y) < cell(bounds, a, b) <==> x < a),
        y < b ==> cell(bounds, x, y) < cell(bounds, a, b),
        y > b ==> cell(bounds, x, y) >= cell(bounds, a, b),
{
    let w = bounds.x_end - bounds.x_start;
    if y < b {
        assert((y - bounds.y_start) * w + w <= (b - bounds.y_start) * w) by (nonlinear_arith)
            requires
                y < b,
                0 < w,
        ;
    } else if y > b {
        assert((b - bounds.y_start) * w + w <= (y - bounds.y_start) * w) by (nonlinear_arith)
            requires
                y > b,
                0 < w,
        ;
    }
}

/// Fills the image of a rectangle from the runs, resetting every uncovered cell: covered cells get
/// the preview color, all others become transparent. What the image held before does not matter.
pub fn fill_spans(pixels: &mut [u32], spans: &[Span], bounds: Roi)
    requires
        bounds.wf(),
        old(pixels)@.len() == (bounds.x_end - bounds.x_start) * (bounds.y_end - bounds.y_start),
        forall|k: int| 0 <= k < spans@.len() ==> run_inside(bounds, #[trigger] spans@[k]),
        cells_in_order(bounds, spans@),
    ensures
        final(pixels)@.len() == old(pixels)@.len(),
        forall|x: int, y: int|
            bounds.has(x, y) ==> #[trigger] final(pixels)@[cell(bounds, x, y)]
                == if crate::span::covers(spans@, x, y) {
                PREVIEW_PIXEL
            } else {
                0u32
            },
{
    let len: usize = pixels.len();
    let width: usize = (bounds.x_end - bounds.x_start) as usize;
    let mut cursor: usize = 0;
    let mut k: usize = 0;
    proof {
        assert forall|x: int, y: int| bounds.has(x, y) implies cell(bounds, x, y) >= 0 by {
            lemma_cell(bounds, x, y);
        }
    }
    while k < spans.len()
        invariant
            k <= spans@.len(),
            bounds.wf(),
            len == pixels@.len(),
            width == bounds.x_end - bounds.x_start,
            len == (bounds.x_end - bounds.x_start) * (bounds.y_end - bounds.y_start),
            cursor <= len,
            forall|j: int| 0 <= j < spans@.len() ==> run_inside(bounds, #[trigger] spans@[j]),
            cells_in_order(bounds, spans@),
            k == 0 ==> cursor == 0,
            k > 0 ==> cursor == cell(bounds, spans@[k - 1].end as int, spans@[k - 1].y as int),
            forall|x: int, y: int|
                bounds.has(x, y) && cell(bounds, x, y) < cursor ==> #[trigger] pixels@[cell(
                    bounds,
                    x,
                    y,
                )] == if covers_upto(spans@, k as int, x, y) {
                    PREVIEW_PIXEL
                } else {
                    0u32
                },
        decreases spans@.len() - k,
    {
        let span: Span = spans[k];
        proof {
            assert(run_inside(bounds, spans@[k as int]));
            lemma_cell(bounds, span.start as int, span.y as int);
            lemma_cell(bounds, span.end as int, span.y as int);
            lemma_upto_step(spans@, k as int);
        }
        let row: usize = (span.y - bounds.y_start) as usize * width;
        let start: usize = row + (span.start - bounds.x_start) as usize;
        let end: usize = row + (span.end - bounds.x_start) as usize;
        proof {
            if k > 0 {
                assert(cell(bounds, spans@[k - 1].end as int, spans@[k - 1].y as int) <= cell(
                    bounds,
                    spans@[k as int].start as int,
                    spans@[k as int].y as int,
                ));
            }
        }
        let ghost was = pixels@;
        fill(pixels, cursor, start, 0);
        fill(pixels, start, end, PREVIEW_PIXEL);
        proof {
            assert forall|x: int, y: int|
                bounds.has(x, y) && cell(bounds, x, y) < end implies #[trigger] pixels@[cell(
                bounds,
                x,
                y,
            )] == if covers_upto(spans@, k + 1, x, y) {
                PREVIEW_PIXEL
            } else {
                0u32
            } by {
                lemma_cell(bounds, x, y);
                lemma_cell_order(bounds, x, y, span.start as int, span.y as int);
                lemma_cell_order(bounds, x, y, span.end as int, span.y as int);
                let c = cell(bounds, x, y);
                if c < cursor {
                    assert(pixels@[c] == was[c]);
                } else {
                    if covers_upto(spans@, k as int, x, y) {
                        let j = choose|j: int| 0 <= j < k && (#[trigger] spans@[j]).has(x, y);
                        lemma_cell_order(
                            bounds,
                            x,
                            y,
                            spans@[j].end as int,
                            spans@[j].y as int,
                        );
                        if j < k - 1 {
                            assert(cell(bounds, spans@[j].end as int, spans@[j].y as int) <= cell(
                                bounds,
                                spans@[k - 1].start as int,
                                spans@[k - 1].y as int,
                            ));
                        }
                    }
                }
            }
        }
        cursor = end;
        k += 1;
    }
    let ghost was = pixels@;
    fill(pixels, cursor, len, 0);
    proof {
        assert forall|x: int, y: int| bounds.has(x, y) implies #[trigger] pixels@[cell(
            bounds,
            x,
            y,
        )] == if crate::span::covers(spans@, x, y) {
            PREVIEW_PIXEL
        } else {
            0u32
        } by {
            lemma_cell(bounds, x, y);
            let c = cell(bounds, x, y);
            if c < cursor {
                assert(pixels@[c] == was[c]);
            } else if crate::span::covers(spans@, x, y) {
                let j = choose|j: int| 0 <= j < spans@.len() && (#[trigger] spans@[j]).has(x, y);
                lemma_cell_order(bounds, x, y, spans@[j].end as int, spans@[j].y as int);
                if j < k - 1 {
                    assert(cell(bounds, spans@[j].end as int, spans@[j].y as int) <= cell(
                        bounds,
                        spans@[k - 1].start as int,
                        spans@[k - 1].y as int,
                    ));
                    lemma_cell_order(
                        bounds,
                        spans@[k - 1].start as int,
                        spans@[k - 1].y as int,
                        spans@[k - 1].end as int,
                        spans@[k - 1].y as int,
                    );
                }
            }
        }
    }
}

/// Sets the cells `from..to`.
fn fill(pixels: &mut [u32], from: usize, to: usize, value: u32)
    requires
        from <= to <= old(pixels)@.len(),
    ensures
        final(pixels)@.len() == old(pixels)@.len(),
        forall|p: int|
            0 <= p < old(pixels)@.len() ==> #[trigger] final(pixels)@[p] == if from <= p < to {
                value
            } else {
                old(pixels)@[p]
            },
{
    let ghost start = pixels@;
    let mut i: usize = from;
    while i < to
        invariant
            from <= i <= to,
            to <= pixels@.len(),
            pixels@.len() == start.len(),
            forall|p: int|
                0 <= p < start.len() ==> #[trigger] pixels@[p] == if from <= p < i {
                    value
                } else {
                    start[p]
                },
        decreases to - i,
    {
        pixels[i] = value;
        i += 1;
    }
}

/// The pixels of the first `n` regions.
pub open spec fn union_upto(regions: Seq<Option<SortedRanges>>, n: int) -> Set<(int, int)>
    decreases n,
{
    if n <= 0 {
        Set::empty()
    } else {
        union_upto(regions, n - 1).union(crate::selection::pixels_of(regions[n - 1]))
    }
}

/// All pixels of the regions; `None` where there are none.
pub fn union_all(regions: &Vec<Option<SortedRanges>>) -> (all: Option<SortedRanges>)
    ensures
        all is Some <==> union_upto(regions@, regions@.len() as int) != Set::<(int, int)>::empty(),
        all matches Some(r) ==> r@ == union_upto(regions@, regions@.len() as int),
{
    let mut all: Option<SortedRanges> = None;
    let mut k: usize = 0;
    while k < regions.len()
        invariant
            k <= regions@.len(),
            crate::selection::pixels_of(all) == union_upto(regions@, k as int),
            all is Some ==> union_upto(regions@, k as int) != Set::<(int, int)>::empty(),
        decreases regions@.len() - k,
    {
        match &regions[k] {
            Some(region) => {
                proof {
                    use_type_invariant(region);
                    crate::pixel_area::lemma_filled(*region);
                }
                let ghost upto = union_upto(regions@, k as int);
                let next = match &all {
                    Some(earlier) => earlier.union(region),
                    None => {
                        assert(upto.union(region@) =~= region@);
                        region.clone()
                    },
                };
                proof {
                    assert(next@ == upto.union(region@));
                    let p = choose|p: (int, int)| region@.contains(p);
                    assert(!(region@ =~= Set::empty()));
                    assert(next@.contains(p));
                }
                all = Some(next);
            },
            None => {
                assert(union_upto(regions@, k as int).union(Set::empty()) =~= union_upto(
                    regions@,
                    k as int,
                ));
            },
        }
        k += 1;
    }
    all
}

/// Where the preview is painted, and whether there is one.
pub struct PreviewPlacement {
    pub visible: bool,
    pub origin: [u32; 2],
    pub size: [u32; 2],
}

impl PreviewPlacement {
    /// No preview yet.
    pub fn new() -> (placement: PreviewPlacement)
        ensures
            placement == (PreviewPlacement {
                visible: false,
                origin: [0u32, 0u32],
                size: [0u32, 0u32],
            }),
    {
        PreviewPlacement { visible: false, origin: [0u32, 0u32], size: [0u32, 0u32] }
    }

    /// Whether there are uploaded pixels to paint.
    pub fn is_visible(&self) -> (visible: bool)
        ensures
            visible == self.visible,
    {
        self.visible
    }

    /// The preview now holds the pixels of this rectangle.
    pub fn show(&mut self, bounds: Roi)
        requires
            bounds.wf(),
        ensures
            *final(self) == (PreviewPlacement {
                visible: true,
                origin: [bounds.x_start, bounds.y_start],
                size: [
                    (bounds.x_end - bounds.x_start) as u32,
                    (bounds.y_end - bounds.y_start) as u32,
                ],
            }),
    {
        self.visible = true;
        self.origin = [bounds.x_start, bounds.y_start];
        self.size = [bounds.width(), bounds.height()];
    }

    /// Moves the uploaded pixels to another rectangle without drawing them anew. Tells whether that
    /// was possible: only where there are pixels, of the same size.
    pub fn try_reposition(&mut self, bounds: Roi) -> (moved: bool)
        requires
            bounds.wf(),
        ensures
            moved == (old(self).visible && old(self).size[0] == bounds.x_end - bounds.x_start
                && old(self).size[1] == bounds.y_end - bounds.y_start),
            moved ==> *final(self) == (PreviewPlacement {
                origin: [bounds.x_start, bounds.y_start],
                ..*old(self)
            }),
            !moved ==> *final(self) == *old(self),
    {
        if !self.visible || self.size[0] != bounds.width() || self.size[1] != bounds.height() {
            return false;
        }
        self.origin = [bounds.x_start, bounds.y_start];
        true
    }

    /// Drops the uploaded pixels. Nothing is painted until the next `show`.
    pub fn conceal(&mut self)
        ensures
            *final(self) == (PreviewPlacement {
                visible: false,
                size: [0u32, 0u32],
                ..*old(self)
            }),
    {
        self.visible = false;
        self.size = [0u32, 0u32];
    }
}

/// The image of a rectangle starts with the pixel in its corner, goes on to the right, and has a row
/// below the other.
pub proof fn cells_go_row_by_row(bounds: Roi, x: int, y: int)
    ensures
        cell(bounds, bounds.x_start as int, bounds.y_start as int) == 0,
        cell(bounds, x + 1, y) == cell(bounds, x, y) + 1,
        cell(bounds, x, y + 1) == cell(bounds, x, y) + (bounds.x_end - bounds.x_start),
{
    let w = bounds.x_end - bounds.x_start;
    assert(0 * w == 0);
    assert((y + 1 - bounds.y_start) * w == (y - bounds.y_start) * w + w) by (nonlinear_arith);
}

/// A pixel is among those of the regions where one of the regions has it.
pub proof fn union_has_the_pixels_of_each(
    regions: Seq<Option<SortedRanges>>,
    n: int,
    p: (int, int),
)
    requires
        0 <= n <= regions.len(),
    ensures
        union_upto(regions, n).contains(p) <==> exists|k: int|
            0 <= k < n && (#[trigger] regions[k] matches Some(r) && r@.contains(p)),
    decreases n,
{
    if n > 0 {
        union_has_the_pixels_of_each(regions, n - 1, p);
        if union_upto(regions, n).contains(p) && !union_upto(regions, n - 1).contains(p) {
            assert(regions[n - 1] matches Some(r) && r@.contains(p));
        }
    }
}

} // verus!
