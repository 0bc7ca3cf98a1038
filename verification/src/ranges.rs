//! Non-empty pixel regions, kept as canonical run lists.
use crate::span::{
    canonical, canonical_is_unique, covers, lemma_pixels_ext, pixels, push_run, subtract_runs,
    union_runs, Span,
};
use vstd::prelude::*;
use vstd::std_specs::cmp::PartialEqSpec;

verus! {

/// The region holds a pixel of column `x`.
pub open spec fn touches_column(region: Set<(int, int)>, x: int) -> bool {
    exists|y: int| region.contains((x, y))
}

/// The region holds a pixel of row `y`.
pub open spec fn touches_row(region: Set<(int, int)>, y: int) -> bool {
    exists|x: int| region.contains((x, y))
}

/// A non-empty rectangle of pixels: columns `x_start..x_end`, rows `y_start..y_end`.
#[derive(Clone, Copy, PartialEq, Eq, Structural, Debug)]
pub struct Roi {
    pub x_start: u32,
    pub x_end: u32,
    pub y_start: u32,
    pub y_end: u32,
}

impl Roi {
    pub open spec fn wf(self) -> bool {
        self.x_start < self.x_end && self.y_start < self.y_end
    }

    pub open spec fn has(self, x: int, y: int) -> bool {
        self.x_start <= x < self.x_end && self.y_start <= y < self.y_end
    }

    /// The pixels of the rectangle.
    pub open spec fn area(self) -> Set<(int, int)> {
        Set::new(|p: (int, int)| self.has(p.0, p.1))
    }

    /// The rectangle holds the whole region, and each of its four sides touches it.
    pub open spec fn hugs(self, region: Set<(int, int)>) -> bool {
        &&& region.subset_of(self.area())
        &&& touches_column(region, self.x_start as int)
        &&& touches_column(region, self.x_end - 1)
        &&& touches_row(region, self.y_start as int)
        &&& touches_row(region, self.y_end - 1)
    }

    pub fn new(x: core::ops::Range<u32>, y: core::ops::Range<u32>) -> (roi: Roi)
        requires
            x.start < x.end,
            y.start < y.end,
        ensures
            roi.wf(),
            roi == (Roi { x_start: x.start, x_end: x.end, y_start: y.start, y_end: y.end }),
    {
        Roi { x_start: x.start, x_end: x.end, y_start: y.start, y_end: y.end }
    }

    /// The rectangle of an image of the given size, with its corner at the origin.
    pub fn from_dimensions(width: u32, height: u32) -> (roi: Roi)
        requires
            width > 0,
            height > 0,
        ensures
            roi.wf(),
            roi == (Roi { x_start: 0, x_end: width, y_start: 0, y_end: height }),
    {
        Roi { x_start: 0, x_end: width, y_start: 0, y_end: height }
    }

    pub fn width(&self) -> (width: u32)
        requires
            self.wf(),
        ensures
            width == self.x_end - self.x_start,
    {
        self.x_end - self.x_start
    }

    pub fn height(&self) -> (height: u32)
        requires
            self.wf(),
        ensures
            height == self.y_end - self.y_start,
    {
        self.y_end - self.y_start
    }

    pub fn contains(&self, x: u32, y: u32) -> (inside: bool)
        ensures
            inside == self.area().contains((x as int, y as int)),
            inside == (self.x_start <= x && x < self.x_end && self.y_start <= y && y < self.y_end),
    {
        self.x_start <= x && x < self.x_end && self.y_start <= y && y < self.y_end
    }

    /// The smallest rectangle around both.
    pub fn union(&self, other: &Roi) -> (all: Roi)
        requires
            self.wf(),
            other.wf(),
        ensures
            all.wf(),
            all == roi_union(*self, *other),
    {
        Roi {
            x_start: if self.x_start < other.x_start { self.x_start } else { other.x_start },
            x_end: if self.x_end > other.x_end { self.x_end } else { other.x_end },
            y_start: if self.y_start < other.y_start { self.y_start } else { other.y_start },
            y_end: if self.y_end > other.y_end { self.y_end } else { other.y_end },
        }
    }
}

/// The smallest rectangle around two rectangles.
pub open spec fn roi_union(a: Roi, b: Roi) -> Roi {
    Roi {
        x_start: if a.x_start < b.x_start { a.x_start } else { b.x_start },
        x_end: if a.x_end > b.x_end { a.x_end } else { b.x_end },
        y_start: if a.y_start < b.y_start { a.y_start } else { b.y_start },
        y_end: if a.y_end > b.y_end { a.y_end } else { b.y_end },
    }
}

/// The last column of a rectangle.
pub open spec fn last_x(roi: Roi) -> int {
    roi.x_end - 1
}

/// The last row of a rectangle.
pub open spec fn last_y(roi: Roi) -> int {
    roi.y_end - 1
}

/// A region has one rectangle that hugs it.
pub proof fn hugging_roi_is_unique(a: Roi, b: Roi, region: Set<(int, int)>)
    requires
        a.hugs(region),
        b.hugs(region),
    ensures
        a == b,
{
    lemma_hugging_inside(a, b, region);
    lemma_hugging_inside(b, a, region);
}

proof fn lemma_hugging_inside(a: Roi, b: Roi, region: Set<(int, int)>)
    requires
        a.hugs(region),
        region.subset_of(b.area()),
    ensures
        b.x_start <= a.x_start,
        a.x_end <= b.x_end,
        b.y_start <= a.y_start,
        a.y_end <= b.y_end,
{
    let y0 = choose|y: int| region.contains((a.x_start as int, y));
    assert(b.area().contains((a.x_start as int, y0)));
    let y1 = choose|y: int| region.contains((last_x(a), y));
    assert(b.area().contains((a.x_end - 1, y1)));
    let x0 = choose|x: int| region.contains((x, a.y_start as int));
    assert(b.area().contains((x0, a.y_start as int)));
    let x1 = choose|x: int| region.contains((x, last_y(a)));
    assert(b.area().contains((x1, a.y_end - 1)));
}

/// The rectangle around two regions is the union of the rectangles around each.
pub proof fn hugging_roi_of_union(a: Roi, b: Roi, r: Set<(int, int)>, s: Set<(int, int)>)
    requires
        a.hugs(r),
        b.hugs(s),
    ensures
        roi_union(a, b).hugs(r.union(s)),
{
    let u = roi_union(a, b);
    let all = r.union(s);
    assert forall|p: (int, int)| all.contains(p) implies u.area().contains(p) by {
        if r.contains(p) {
            assert(a.area().contains(p));
        } else {
            assert(b.area().contains(p));
        }
    }
    let ya = choose|y: int| r.contains((a.x_start as int, y));
    let yb = choose|y: int| s.contains((b.x_start as int, y));
    assert(all.contains((a.x_start as int, ya)) && all.contains((b.x_start as int, yb)));
    let ya1 = choose|y: int| r.contains((last_x(a), y));
    let yb1 = choose|y: int| s.contains((last_x(b), y));
    assert(all.contains((a.x_end - 1, ya1)) && all.contains((b.x_end - 1, yb1)));
    let xa = choose|x: int| r.contains((x, a.y_start as int));
    let xb = choose|x: int| s.contains((x, b.y_start as int));
    assert(all.contains((xa, a.y_start as int)) && all.contains((xb, b.y_start as int)));
    let xa1 = choose|x: int| r.contains((x, last_y(a)));
    let xb1 = choose|x: int| s.contains((x, last_y(b)));
    assert(all.contains((xa1, a.y_end - 1)) && all.contains((xb1, b.y_end - 1)));
}

/// A non-empty set of pixels. Its view is that set.
#[derive(Debug)]
pub struct SortedRanges {
    runs: Vec<Span>,
}

impl View for SortedRanges {
    type V = Set<(int, int)>;

    open spec fn view(&self) -> Set<(int, int)> {
        pixels(self.run_list())
    }
}

impl SortedRanges {
    /// The canonical runs of the region.
    pub closed spec fn run_list(&self) -> Seq<Span> {
        self.runs@
    }

    pub open spec fn wf(&self) -> bool {
        canonical(self.run_list()) && self.run_list().len() > 0
    }

    #[verifier::type_invariant]
    pub(crate) open spec fn inv(&self) -> bool {
        self.wf()
    }

    /// The region of a canonical run list; `None` where the list is empty.
    pub(crate) fn from_runs(runs: Vec<Span>) -> (region: Option<SortedRanges>)
        requires
            canonical(runs@),
        ensures
            region is Some <==> runs@.len() > 0,
            region matches Some(r) ==> r.run_list() == runs@ && r.wf(),
    {
        if runs.len() == 0 {
            None
        } else {
            Some(SortedRanges { runs })
        }
    }

    /// The region of one run.
    pub fn from_span(span: Span) -> (region: SortedRanges)
        requires
            span.wf(),
        ensures
            region.wf(),
            region.run_list() == seq![span],
            region@ == pixels(seq![span]),
    {
        let mut runs: Vec<Span> = Vec::new();
        runs.push(span);
        assert(runs@ =~= seq![span]);
        SortedRanges { runs }
    }

    /// The region of every pixel that one of the runs holds; `None` where there is no run.
    /// The runs may come in any order and may overlap.
    pub fn try_from_span_iter(spans: &[Span]) -> (region: Option<SortedRanges>)
        requires
            forall|i: int| 0 <= i < spans@.len() ==> (#[trigger] spans@[i]).wf(),
        ensures
            region is Some <==> spans@.len() > 0,
            region matches Some(r) ==> r.wf() && r@ == pixels(spans@),
    {
        if spans.len() == 0 {
            return None;
        }
        let runs = collect_runs(spans, 0, spans.len());
        proof {
            assert forall|x: int, y: int| #![trigger covers(runs@, x, y)]
                covers(runs@, x, y) == pixels(spans@).contains((x, y)) by {
                if covers(runs@, x, y) {
                    let i = choose|i: int| 0 <= i < spans@.len() && (#[trigger] spans@[i]).has(x, y);
                    assert(covers(spans@, x, y));
                }
                if covers(spans@, x, y) {
                    let i = choose|i: int| 0 <= i < spans@.len() && (#[trigger] spans@[i]).has(x, y);
                    assert(0 <= i < spans.len());
                }
            }
            lemma_pixels_ext(runs@, pixels(spans@));
        }
        Some(SortedRanges { runs })
    }

    /// The region of a whole rectangle.
    pub fn from_roi(roi: Roi) -> (region: SortedRanges)
        requires
            roi.wf(),
        ensures
            region.wf(),
            region@ == roi.area(),
    {
        let mut runs: Vec<Span> = Vec::new();
        let mut y: u32 = roi.y_start;
        while y < roi.y_end
            invariant
                roi.wf(),
                roi.y_start <= y <= roi.y_end,
                canonical(runs@),
                runs@.len() == y - roi.y_start,
                runs@.len() > 0 ==> runs@.last().y + 1 == y,
                forall|px: int, py: int|
                    #![trigger covers(runs@, px, py)]
                    covers(runs@, px, py) == (roi.has(px, py) && py < y),
            decreases roi.y_end - y,
        {
            let ghost prev = runs@;
            push_run(&mut runs, Span { start: roi.x_start, end: roi.x_end, y });
            assert(runs@ == prev.push(Span { start: roi.x_start, end: roi.x_end, y }));
            y = y + 1;
        }
        proof {
            lemma_pixels_ext(runs@, roi.area());
        }
        SortedRanges { runs }
    }

    /// The runs in reading order.
    pub fn spans(&self) -> (spans: &[Span])
        ensures
            spans@ == self.run_list(),
            self.wf(),
            pixels(spans@) == self@,
    {
        proof {
            use_type_invariant(self);
        }
        self.runs.as_slice()
    }

    /// How many runs the region has.
    pub fn len(&self) -> (n: usize)
        ensures
            n == self.run_list().len(),
            n > 0,
    {
        proof {
            use_type_invariant(self);
        }
        self.runs.len()
    }

    /// Whether the region holds the pixel `(x, y)`.
    pub fn contains(&self, x: u32, y: u32) -> (inside: bool)
        ensures
            inside == self@.contains((x as int, y as int)),
    {
        let mut i: usize = 0;
        while i < self.runs.len()
            invariant
                forall|k: int| 0 <= k < i ==> !(#[trigger] self.runs@[k]).has(x as int, y as int),
            decreases self.runs@.len() - i,
        {
            let s: Span = self.runs[i];
            if s.y == y && s.start <= x && x < s.end {
                assert(self.runs@[i as int].has(x as int, y as int));
                assert(covers(self.run_list(), x as int, y as int));
                return true;
            }
            i = i + 1;
        }
        assert(!covers(self.run_list(), x as int, y as int));
        false
    }

    /// The rectangle that hugs the region.
    pub fn roi(&self) -> (roi: Roi)
        ensures
            roi.wf(),
            roi.hugs(self@),
    {
        proof {
            use_type_invariant(self);
        }
        let ghost runs = self.runs@;
        let first: Span = self.runs[0];
        let mut x_start: u32 = first.start;
        let mut x_end: u32 = first.end;
        let ghost mut lo: int = 0;
        let ghost mut hi: int = 0;
        let mut i: usize = 1;
        while i < self.runs.len()
            invariant
                runs == self.runs@,
                canonical(runs),
                1 <= i <= runs.len(),
                0 <= lo < runs.len(),
                0 <= hi < runs.len(),
                x_start == runs[lo].start,
                x_end == runs[hi].end,
                x_start < x_end,
                forall|k: int|
                    0 <= k < i ==> x_start <= (#[trigger] runs[k]).start && runs[k].end <= x_end,
            decreases runs.len() - i,
        {
            let s: Span = self.runs[i];
            assert(runs[i as int].wf());
            if s.start < x_start {
                x_start = s.start;
                proof {
                    lo = i as int;
                }
            }
            if s.end > x_end {
                x_end = s.end;
                proof {
                    hi = i as int;
                }
            }
            i = i + 1;
        }
        let last: Span = self.runs[self.runs.len() - 1];
        let roi = Roi { x_start, x_end, y_start: first.y, y_end: last.y + 1 };
        proof {
            let n = runs.len() - 1;
            assert forall|p: (int, int)| self@.contains(p) implies roi.area().contains(p) by {
                let k = choose|k: int| 0 <= k < runs.len() && (#[trigger] runs[k]).has(p.0, p.1);
                if k > 0 {
                    assert(before_or_same_row(runs[0], runs[k]));
                }
                if k < n {
                    assert(before_or_same_row(runs[k], runs[n]));
                }
            }
            assert(runs[lo].wf() && runs[hi].wf() && runs[0].wf() && runs[n].wf());
            lemma_run_pixel(runs, lo, runs[lo].start as int);
            lemma_run_pixel(runs, hi, runs[hi].end - 1);
            lemma_run_pixel(runs, 0, runs[0].start as int);
            lemma_run_pixel(runs, n, runs[n].start as int);
            assert(self@.contains((roi.x_start as int, runs[lo].y as int)));
            assert(self@.contains((roi.x_end - 1, runs[hi].y as int)));
            assert(self@.contains((runs[0].start as int, roi.y_start as int)));
            assert(self@.contains((runs[n].start as int, roi.y_end - 1)));
            if n > 0 {
                assert(before_or_same_row(runs[0], runs[n]));
            }
        }
        roi
    }

    /// Every pixel of either region.
    pub fn union(&self, other: &SortedRanges) -> (all: SortedRanges)
        ensures
            all.wf(),
            all@ == self@.union(other@),
    {
        proof {
            use_type_invariant(self);
            use_type_invariant(other);
        }
        let runs = union_runs(self.runs.as_slice(), other.runs.as_slice());
        proof {
            lemma_pixels_ext(runs@, self@.union(other@));
        }
        SortedRanges { runs }
    }

    /// Every pixel of this region that `other` does not hold; `None` where none is left.
    pub fn subtract(&self, other: &SortedRanges) -> (rest: Option<SortedRanges>)
        ensures
            rest is Some <==> self@.difference(other@) != Set::<(int, int)>::empty(),
            rest matches Some(r) ==> r.wf() && r@ == self@.difference(other@),
    {
        proof {
            use_type_invariant(self);
            use_type_invariant(other);
        }
        let runs = subtract_runs(self.runs.as_slice(), other.runs.as_slice());
        proof {
            lemma_pixels_ext(runs@, self@.difference(other@));
            lemma_empty_runs(runs@);
        }
        SortedRanges::from_runs(runs)
    }

    /// Every pixel that both regions hold; `None` where there is none.
    pub fn intersect(&self, other: &SortedRanges) -> (common: Option<SortedRanges>)
        ensures
            common is Some <==> self@.intersect(other@) != Set::<(int, int)>::empty(),
            common matches Some(r) ==> r.wf() && r@ == self@.intersect(other@),
    {
        proof {
            use_type_invariant(self);
            use_type_invariant(other);
        }
        let outside = subtract_runs(self.runs.as_slice(), other.runs.as_slice());
        let runs = subtract_runs(self.runs.as_slice(), outside.as_slice());
        proof {
            lemma_pixels_ext(runs@, self@.intersect(other@));
            lemma_empty_runs(runs@);
        }
        SortedRanges::from_runs(runs)
    }

    /// Every pixel of this region inside the rectangle; `None` where there is none.
    pub fn clip(&self, roi: Roi) -> (inside: Option<SortedRanges>)
        ensures
            inside is Some <==> self@.intersect(roi.area()) != Set::<(int, int)>::empty(),
            inside matches Some(r) ==> r.wf() && r@ == self@.intersect(roi.area()),
    {
        proof {
            use_type_invariant(self);
        }
        let ghost all = self.runs@;
        let mut runs: Vec<Span> = Vec::new();
        let mut i: usize = 0;
        while i < self.runs.len()
            invariant
                all == self.runs@,
                canonical(all),
                canonical(runs@),
                i <= all.len(),
                runs@.len() > 0 && i < all.len() ==> before_or_same_row(runs@.last(), all[i as int]) && (
                runs@.last().y == all[i as int].y ==> runs@.last().end < all[i as int].start),
                forall|x: int, y: int|
                    #![trigger covers(runs@, x, y)]
                    covers(runs@, x, y) == (crate::span::covers_upto(all, i as int, x, y) && roi.has(x, y)),
            decreases all.len() - i,
        {
            let s: Span = self.runs[i];
            let start: u32 = if s.start < roi.x_start { roi.x_start } else { s.start };
            let end: u32 = if s.end > roi.x_end { roi.x_end } else { s.end };
            proof {
                crate::span::lemma_upto_step(all, i as int);
                assert(all[i as int].wf());
                if i + 1 < all.len() {
                    assert(crate::span::before(all[i as int], all[i + 1]));
                }
            }
            let ghost prev = runs@;
            if roi.y_start <= s.y && s.y < roi.y_end && start < end {
                let piece = Span { start, end, y: s.y };
                push_run(&mut runs, piece);
                assert(runs@ == prev.push(piece));
                assert forall|x: int, y: int| piece.has(x, y) == (s.has(x, y) && roi.has(x, y)) by {}
            } else {
                assert forall|x: int, y: int| !(s.has(x, y) && roi.has(x, y)) by {}
            }
            i = i + 1;
        }
        proof {
            lemma_pixels_ext(runs@, self@.intersect(roi.area()));
            lemma_empty_runs(runs@);
        }
        SortedRanges::from_runs(runs)
    }
}

spec fn before_or_same_row(a: Span, b: Span) -> bool {
    a.y <= b.y
}

proof fn lemma_run_pixel(runs: Seq<Span>, i: int, x: int)
    requires
        0 <= i < runs.len(),
        runs[i].start <= x < runs[i].end,
    ensures
        pixels(runs).contains((x, runs[i].y as int)),
{
    assert(runs[i].has(x, runs[i].y as int));
    assert(covers(runs, x, runs[i].y as int));
}

/// A canonical list without runs is the one that holds no pixel.
pub(crate) proof fn lemma_empty_runs(runs: Seq<Span>)
    requires
        canonical(runs),
    ensures
        runs.len() > 0 <==> pixels(runs) != Set::<(int, int)>::empty(),
{
    if runs.len() > 0 {
        assert(runs[0].wf());
        lemma_run_pixel(runs, 0, runs[0].start as int);
    } else {
        assert forall|x: int, y: int| !covers(runs, x, y) by {}
        lemma_pixels_ext(runs, Set::empty());
    }
}

/// The canonical runs of the spans `lo..hi`, by halves.
fn collect_runs(spans: &[Span], lo: usize, hi: usize) -> (runs: Vec<Span>)
    requires
        lo < hi <= spans@.len(),
        forall|i: int| 0 <= i < spans@.len() ==> (#[trigger] spans@[i]).wf(),
    ensures
        canonical(runs@),
        runs@.len() > 0,
        forall|x: int, y: int|
            #![trigger covers(runs@, x, y)]
            covers(runs@, x, y) == exists|i: int| lo <= i < hi && (#[trigger] spans@[i]).has(x, y),
    decreases hi - lo,
{
    if hi - lo == 1 {
        let mut runs: Vec<Span> = Vec::new();
        push_run(&mut runs, spans[lo]);
        assert forall|x: int, y: int| #![trigger covers(runs@, x, y)]
            covers(runs@, x, y) == exists|i: int| lo <= i < hi && (#[trigger] spans@[i]).has(x, y) by {
            assert(spans@[lo as int].has(x, y) == covers(runs@, x, y));
        }
        runs
    } else {
        let mid: usize = lo + (hi - lo) / 2;
        let left = collect_runs(spans, lo, mid);
        let right = collect_runs(spans, mid, hi);
        let runs = union_runs(left.as_slice(), right.as_slice());
        assert forall|x: int, y: int| #![trigger covers(runs@, x, y)]
            covers(runs@, x, y) == exists|i: int| lo <= i < hi && (#[trigger] spans@[i]).has(x, y) by {
            assert(covers(runs@, x, y) == (covers(left@, x, y) || covers(right@, x, y)));
        }
        runs
    }
}

impl Clone for SortedRanges {
    fn clone(&self) -> (copy: Self)
        ensures
            copy.run_list() == self.run_list(),
            copy@ == self@,
            copy.wf(),
    {
        proof {
            use_type_invariant(self);
        }
        let mut runs: Vec<Span> = Vec::new();
        let mut i: usize = 0;
        while i < self.runs.len()
            invariant
                i <= self.runs@.len(),
                runs@ == self.runs@.take(i as int),
            decreases self.runs@.len() - i,
        {
            runs.push(self.runs[i]);
            i = i + 1;
            assert(runs@ =~= self.runs@.take(i as int));
        }
        assert(runs@ =~= self.runs@);
        SortedRanges { runs }
    }
}

impl PartialEq for SortedRanges {
    fn eq(&self, other: &Self) -> (same: bool) {
        proof {
            use_type_invariant(self);
            use_type_invariant(other);
            if self@ == other@ {
                canonical_is_unique(self.runs@, other.runs@);
            }
        }
        if self.runs.len() != other.runs.len() {
            return false;
        }
        let mut i: usize = 0;
        while i < self.runs.len()
            invariant
                self@ == other@ ==> self.runs@ == other.runs@,
                self.runs@.len() == other.runs@.len(),
                i <= self.runs@.len(),
                forall|k: int| 0 <= k < i ==> self.runs@[k] == other.runs@[k],
            decreases self.runs@.len() - i,
        {
            if self.runs[i] != other.runs[i] {
                return false;
            }
            i = i + 1;
        }
        assert(self.runs@ =~= other.runs@);
        true
    }
}

impl Eq for SortedRanges {

}

impl vstd::std_specs::cmp::PartialEqSpecImpl for SortedRanges {
    open spec fn obeys_eq_spec() -> bool {
        true
    }

    /// Two regions are equal when they hold the same pixels.
    open spec fn eq_spec(&self, other: &Self) -> bool {
        self@ == other@
    }
}

/// A rectangle holds the pixels from its left column and top row on, and before its right and bottom
/// edge.
pub proof fn rectangles_hold_their_pixels(roi: Roi, x: int, y: int)
    ensures
        roi.area().contains((x, y)) <==> roi.x_start <= x && x < roi.x_end && roi.y_start <= y && y
            < roi.y_end,
{
}

/// A rectangle that hugs a region has all its pixels, and a pixel of it on each side.
pub proof fn hugging_is_tight(roi: Roi, region: Set<(int, int)>, x: int, y: int)
    requires
        roi.hugs(region),
    ensures
        region.contains((x, y)) ==> roi.x_start <= x < roi.x_end && roi.y_start <= y < roi.y_end,
        exists|b: int| #[trigger] region.contains((roi.x_start as int, b)),
        exists|b: int| #[trigger] region.contains((last_x(roi), b)),
        exists|a: int| #[trigger] region.contains((a, roi.y_start as int)),
        exists|a: int| #[trigger] region.contains((a, last_y(roi))),
{
    if region.contains((x, y)) {
        assert(roi.area().contains((x, y)));
    }
    let y0 = choose|b: int| region.contains((roi.x_start as int, b));
    assert(region.contains((roi.x_start as int, y0)));
    let y1 = choose|b: int| region.contains((last_x(roi), b));
    assert(region.contains((last_x(roi), y1)));
    let x0 = choose|a: int| region.contains((a, roi.y_start as int));
    assert(region.contains((x0, roi.y_start as int)));
    let x1 = choose|a: int| region.contains((a, last_y(roi)));
    assert(region.contains((x1, last_y(roi))));
}

/// The rectangle around two rectangles holds both, and is inside every rectangle that does.
pub proof fn union_is_the_smallest(a: Roi, b: Roi, other: Roi)
    requires
        a.wf(),
        b.wf(),
    ensures
        a.area().subset_of(roi_union(a, b).area()),
        b.area().subset_of(roi_union(a, b).area()),
        a.area().subset_of(other.area()) && b.area().subset_of(other.area()) ==> roi_union(
            a,
            b,
        ).area().subset_of(other.area()),
{
    if a.area().subset_of(other.area()) && b.area().subset_of(other.area()) {
        assert(a.area().contains((a.x_start as int, a.y_start as int)));
        assert(a.area().contains((a.x_end - 1, a.y_end - 1)));
        assert(b.area().contains((b.x_start as int, b.y_start as int)));
        assert(b.area().contains((b.x_end - 1, b.y_end - 1)));
        assert(other.area().contains((a.x_start as int, a.y_start as int)));
        assert(other.area().contains((a.x_end - 1, a.y_end - 1)));
        assert(other.area().contains((b.x_start as int, b.y_start as int)));
        assert(other.area().contains((b.x_end - 1, b.y_end - 1)));
    }
}

/// Regions are equal where they hold the same pixels.
pub proof fn equal_regions_hold_the_same(a: SortedRanges, b: SortedRanges)
    ensures
        SortedRanges::obeys_eq_spec(),
        a.eq_spec(&b) <==> forall|x: int, y: int|
            a@.contains((x, y)) <==> #[trigger] b@.contains((x, y)),
{
    if forall|x: int, y: int| a@.contains((x, y)) <==> #[trigger] b@.contains((x, y)) {
        assert forall|p: (int, int)| a@.contains(p) == b@.contains(p) by {
            assert(b@.contains((p.0, p.1)) == a@.contains((p.0, p.1)));
        }
        assert(a@ =~= b@);
    }
}

/// A region holds the pixels of its runs.
pub proof fn regions_hold_their_runs(region: SortedRanges, x: int, y: int)
    ensures
        region@.contains((x, y)) <==> exists|i: int|
            0 <= i < region.run_list().len() && (#[trigger] region.run_list()[i]).y == y
                && region.run_list()[i].start <= x && x < region.run_list()[i].end,
{
    crate::span::runs_hold_their_pixels(region.run_list(), x, y);
}

} // verus!
