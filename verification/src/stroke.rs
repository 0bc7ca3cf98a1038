//! A brush stroke: the pixels that a square brush passed over.
use crate::ranges::SortedRanges;
use crate::span::{canonical, covers, lemma_pixels_ext, push_run, starts_by, Span};
use vstd::prelude::*;

verus! {

/// A rectangle of pixels, its edges included.
#[derive(Debug, Clone, Copy, PartialEq, Eq, Structural)]
pub struct PixelRect {
    pub x_min: usize,
    pub x_max: usize,
    pub y_min: usize,
    pub y_max: usize,
}

impl PixelRect {
    pub open spec fn wf(self) -> bool {
        self.x_min <= self.x_max && self.y_min <= self.y_max
    }

    pub open spec fn has(self, x: int, y: int) -> bool {
        self.x_min <= x <= self.x_max && self.y_min <= y <= self.y_max
    }

    pub open spec fn area(self) -> Set<(int, int)> {
        Set::new(|p: (int, int)| self.has(p.0, p.1))
    }
}

pub open spec fn smaller(a: usize, b: usize) -> usize {
    if a < b {
        a
    } else {
        b
    }
}

pub open spec fn larger(a: usize, b: usize) -> usize {
    if a > b {
        a
    } else {
        b
    }
}

/// The smallest rectangle around both.
pub open spec fn rect_union(a: PixelRect, b: PixelRect) -> PixelRect {
    PixelRect {
        x_min: smaller(a.x_min, b.x_min),
        x_max: larger(a.x_max, b.x_max),
        y_min: smaller(a.y_min, b.y_min),
        y_max: larger(a.y_max, b.y_max),
    }
}

fn unite(a: PixelRect, b: PixelRect) -> (r: PixelRect)
    ensures
        r == rect_union(a, b),
{
    PixelRect {
        x_min: if a.x_min < b.x_min { a.x_min } else { b.x_min },
        x_max: if a.x_max > b.x_max { a.x_max } else { b.x_max },
        y_min: if a.y_min < b.y_min { a.y_min } else { b.y_min },
        y_max: if a.y_max > b.y_max { a.y_max } else { b.y_max },
    }
}

/// The pixels of a line of `size` that a brush of this reach around `center` touches.
pub open spec fn reach(center: usize, half_size: usize, size: int) -> (usize, usize) {
    (
        if center < half_size {
            0
        } else {
            (center - half_size) as usize
        },
        if center + half_size < size {
            (center + half_size) as usize
        } else {
            (size - 1) as usize
        },
    )
}

/// The square of a brush around a pixel, cut at the edges of the image.
pub open spec fn square(cx: usize, cy: usize, half_size: usize, width: int, height: int) -> PixelRect {
    PixelRect {
        x_min: reach(cx, half_size, width).0,
        x_max: reach(cx, half_size, width).1,
        y_min: reach(cy, half_size, height).0,
        y_max: reach(cy, half_size, height).1,
    }
}

/// The square of a brush around a pixel, cut at the edges of the image.
pub fn brush_square(cx: usize, cy: usize, half_size: usize, width: usize, height: usize) -> (rect:
    PixelRect)
    requires
        cx + half_size <= usize::MAX,
        cy + half_size <= usize::MAX,
        cx - half_size < width,
        cy - half_size < height,
        0 < width,
        0 < height,
    ensures
        rect == square(cx, cy, half_size, width as int, height as int),
        rect.wf(),
{
    PixelRect {
        x_min: if cx < half_size { 0 } else { cx - half_size },
        x_max: if cx + half_size < width { cx + half_size } else { width - 1 },
        y_min: if cy < half_size { 0 } else { cy - half_size },
        y_max: if cy + half_size < height { cy + half_size } else { height - 1 },
    }
}

/// What a stroke has covered so far.
#[verifier::ext_equal]
pub struct StrokeModel {
    pub width: int,
    pub height: int,
    pub stamped: Set<(int, int)>,
    /// A rectangle around the start and all that was stamped.
    pub bounds: PixelRect,
    /// Where the last stamp was.
    pub last_pos: Option<(usize, usize)>,
    /// A rectangle around what was stamped since the preview was last drawn.
    pub dirty: Option<PixelRect>,
}

impl StrokeModel {
    pub open spec fn in_image(self, x: int, y: int) -> bool {
        0 <= x < self.width && 0 <= y < self.height
    }

    /// What was stamped is inside the bounds, and those are inside the image.
    pub open spec fn wf(self) -> bool {
        &&& self.width <= usize::MAX
        &&& self.height <= usize::MAX
        &&& self.bounds.wf()
        &&& self.bounds.x_max < self.width
        &&& self.bounds.y_max < self.height
        &&& forall|x: int, y: int| #[trigger]
            self.stamped.contains((x, y)) ==> self.bounds.has(x, y)
        &&& self.dirty matches Some(d) ==> d.wf() && d.x_max < self.width && d.y_max < self.height
    }

    /// Where a square may be stamped: it must reach the image.
    pub open spec fn reaches(self, cx: usize, cy: usize, half_size: usize) -> bool {
        &&& cx + half_size <= usize::MAX
        &&& cy + half_size <= usize::MAX
        &&& cx - half_size < self.width
        &&& cy - half_size < self.height
    }

    pub open spec fn stamp(self, cx: usize, cy: usize, half_size: usize) -> StrokeModel {
        let added = square(cx, cy, half_size, self.width, self.height);
        StrokeModel {
            stamped: self.stamped.union(added.area()),
            bounds: rect_union(self.bounds, added),
            dirty: Some(
                match self.dirty {
                    Some(d) => rect_union(d, added),
                    None => added,
                },
            ),
            ..self
        }
    }

    /// The nearest pixel inside the image.
    pub open spec fn clamped(self, p: (usize, usize)) -> (usize, usize) {
        (smaller(p.0, (self.width - 1) as usize), smaller(p.1, (self.height - 1) as usize))
    }

    /// A square around each of the first `n` points.
    pub open spec fn stamp_points(
        self,
        points: Seq<(usize, usize)>,
        n: int,
        half_size: usize,
    ) -> StrokeModel
        decreases n,
    {
        if n <= 0 {
            self
        } else {
            let p = self.clamped(points[n - 1]);
            self.stamp_points(points, n - 1, half_size).stamp(p.0, p.1, half_size)
        }
    }

    /// A square at both ends of the way and around each of the points between; nothing where the way
    /// leads nowhere.
    pub open spec fn stamp_way(
        self,
        from: (usize, usize),
        to: (usize, usize),
        between: Seq<(usize, usize)>,
        half_size: usize,
    ) -> StrokeModel {
        if from == to {
            self
        } else {
            let (first, last) = (self.clamped(from), self.clamped(to));
            self.stamp(first.0, first.1, half_size).stamp_points(
                between,
                between.len() as int,
                half_size,
            ).stamp(last.0, last.1, half_size)
        }
    }

    /// Whether the brush has stamped the pixel it is at.
    pub open spec fn has_its_position(self) -> bool {
        self.last_pos matches Some((x, y)) ==> self.stamped.contains((x as int, y as int))
    }

    /// The brush moves to a pixel: from where it was, along the points between, or to its first
    /// stamp.
    pub open spec fn moved_to(
        self,
        x: usize,
        y: usize,
        half_size: usize,
        between: Seq<(usize, usize)>,
    ) -> StrokeModel {
        let p = self.clamped((x, y));
        let drawn = match self.last_pos {
            Some(last) => self.stamp_way(last, p, between, half_size),
            None => self.stamp(p.0, p.1, half_size),
        };
        StrokeModel { last_pos: Some(p), ..drawn }
    }
}

/// The start of a stroke.
pub open spec fn new_stroke(width: int, height: int, x: usize, y: usize) -> StrokeModel {
    StrokeModel {
        width,
        height,
        stamped: Set::empty(),
        bounds: PixelRect { x_min: x, x_max: x, y_min: y, y_max: y },
        last_pos: None,
        dirty: None,
    }
}

/// A part of the preview that is to be drawn anew.
pub struct PreviewPatch {
    pub x: usize,
    pub y: usize,
    pub width: usize,
    pub height: usize,
    /// Premultiplied RGBA, red in the lowest byte, row by row.
    pub pixels: Vec<u32>,
}

/// Half transparent black.
pub const PREVIEW_PIXEL: u32 = 0x8000_0000;

/// A brush stroke.
pub struct StrokeState {
    width: usize,
    height: usize,
    bounds: PixelRect,
    mask: Vec<bool>,
    last_pos: Option<(usize, usize)>,
    dirty: Option<PixelRect>,
}

/// Where the pixel is in a row-by-row list.
pub open spec fn flat(x: int, y: int, width: int) -> int {
    y * width + x
}

/// The pixels that a row-by-row list marks.
pub open spec fn marked(mask: Seq<bool>, width: int, height: int) -> Set<(int, int)> {
    Set::new(
        |p: (int, int)|
            0 <= p.0 < width && 0 <= p.1 < height && mask[flat(p.0, p.1, width)],
    )
}

impl View for StrokeState {
    type V = StrokeModel;

    closed spec fn view(&self) -> StrokeModel {
        StrokeModel {
            width: self.width as int,
            height: self.height as int,
            stamped: marked(self.mask@, self.width as int, self.height as int),
            bounds: self.bounds,
            last_pos: self.last_pos,
            dirty: self.dirty,
        }
    }
}

proof fn lemma_flat_inside(x: int, y: int, width: int, height: int)
    requires
        0 <= x < width,
        0 <= y < height,
    ensures
        0 <= flat(x, y, width) < width * height,
        flat(x, y, width) == y * width + x,
        y * width <= flat(x, y, width),
        0 <= y * width,
{
    assert(0 <= y * width && y * width + width <= height * width) by (nonlinear_arith)
        requires
            0 <= y < height,
            0 < width,
    ;
    assert(height * width == width * height) by (nonlinear_arith);
}

/// Two pixels have two places.
proof fn lemma_flat_distinct(x: int, y: int, a: int, b: int, width: int)
    requires
        0 <= x < width,
        0 <= a < width,
        0 <= y,
        0 <= b,
    ensures
        flat(x, y, width) == flat(a, b, width) <==> x == a && y == b,
{
    if y < b {
        assert(y * width + width <= b * width) by (nonlinear_arith)
            requires
                y < b,
                0 < width,
        ;
    } else if b < y {
        assert(b * width + width <= y * width) by (nonlinear_arith)
            requires
                b < y,
                0 < width,
        ;
    }
}

impl StrokeState {
    #[verifier::type_invariant]
    closed spec fn inv(&self) -> bool {
        &&& self.mask@.len() == self.width * self.height
        &&& self@.wf()
    }

    /// A stroke that starts at a pixel, with nothing stamped yet.
    pub fn new(width: usize, height: usize, x: usize, y: usize) -> (stroke: StrokeState)
        requires
            x < width,
            y < height,
            width * height <= usize::MAX,
        ensures
            stroke@ == new_stroke(width as int, height as int, x, y),
            stroke@.wf(),
    {
        let mask: Vec<bool> = vec![false; width * height];
        let bounds = PixelRect { x_min: x, x_max: x, y_min: y, y_max: y };
        proof {
            assert forall|a: int, b: int| !#[trigger] marked(
                mask@,
                width as int,
                height as int,
            ).contains((a, b)) by {
                if 0 <= a < width && 0 <= b < height {
                    lemma_flat_inside(a, b, width as int, height as int);
                }
            }
            assert(marked(mask@, width as int, height as int) =~= Set::empty());
        }
        StrokeState { width, height, bounds, mask, last_pos: None, dirty: None }
    }

    /// Where the last stamp was.
    pub fn last_pos(&self) -> (last_pos: Option<(usize, usize)>)
        ensures
            last_pos == self@.last_pos,
    {
        self.last_pos
    }

    /// Whether the pixel was stamped.
    pub fn is_stamped(&self, x: usize, y: usize) -> (stamped: bool)
        ensures
            stamped == self@.stamped.contains((x as int, y as int)),
    {
        proof {
            use_type_invariant(self);
        }
        let len: usize = self.mask.len();
        if x < self.width && y < self.height {
            proof {
                assert(len == self.width * self.height);
                lemma_flat_inside(x as int, y as int, self.width as int, self.height as int);
            }
            self.mask[y * self.width + x]
        } else {
            false
        }
    }

    /// Stamps the square of the brush around a pixel.
    pub fn stamp_square(&mut self, cx: usize, cy: usize, half_size: usize)
        requires
            old(self)@.reaches(cx, cy, half_size),
        ensures
            final(self)@ == old(self)@.stamp(cx, cy, half_size),
            final(self)@.wf(),
    {
        proof {
            use_type_invariant(&*self);
        }
        let ghost start = self@;
        let added = brush_square(cx, cy, half_size, self.width, self.height);
        let bounds = unite(self.bounds, added);
        let dirty = match self.dirty {
            Some(d) => unite(d, added),
            None => added,
        };
        let width: usize = self.width;
        let height: usize = self.height;
        let last_pos: Option<(usize, usize)> = self.last_pos;
        let mut before = StrokeState::new(1, 1, 0, 0);
        core::mem::swap(self, &mut before);
        let mut mask = before.mask;
        mark_rect(&mut mask, width, height, added);
        proof {
            assert(marked(mask@, width as int, height as int) =~= start.stamped.union(
                added.area(),
            ));
            let stamped = marked(mask@, width as int, height as int);
            assert forall|x: int, y: int| #[trigger] stamped.contains((x, y)) implies bounds.has(
                x,
                y,
            ) by {
                if !added.area().contains((x, y)) {
                    assert(start.stamped.contains((x, y)));
                }
            }
        }
        *self = StrokeState { width, height, bounds, mask, last_pos, dirty: Some(dirty) };
    }

    /// Stamps the square of the brush at two pixels and around each point between them, moved into
    /// the image where it is not inside. Where both pixels are the same, nothing is stamped.
    pub fn stamp_line(
        &mut self,
        from: (usize, usize),
        to: (usize, usize),
        half_size: usize,
        between: &[(usize, usize)],
    )
        requires
            old(self)@.width + half_size <= usize::MAX,
            old(self)@.height + half_size <= usize::MAX,
        ensures
            final(self)@ == old(self)@.stamp_way(from, to, between@, half_size),
            final(self)@.wf(),
            final(self)@.width == old(self)@.width,
            final(self)@.height == old(self)@.height,
    {
        proof {
            use_type_invariant(&*self);
        }
        if from.0 == to.0 && from.1 == to.1 {
            return ;
        }
        let (x0, y0) = self.clamp(from.0, from.1);
        let (x1, y1) = self.clamp(to.0, to.1);
        self.stamp_square(x0, y0, half_size);
        let ghost start = self@;
        let mut k: usize = 0;
        while k < between.len()
            invariant
                k <= between@.len(),
                self@ == start.stamp_points(between@, k as int, half_size),
                self@.wf(),
                self@.width == start.width,
                self@.height == start.height,
                start.width + half_size <= usize::MAX,
                start.height + half_size <= usize::MAX,
            decreases between@.len() - k,
        {
            let (x, y) = self.clamp(between[k].0, between[k].1);
            self.stamp_square(x, y, half_size);
            k += 1;
        }
        self.stamp_square(x1, y1, half_size);
    }

    /// The nearest pixel inside the image.
    fn clamp(&self, x: usize, y: usize) -> (p: (usize, usize))
        ensures
            p == self@.clamped((x, y)),
            p.0 < self@.width,
            p.1 < self@.height,
    {
        proof {
            use_type_invariant(self);
        }
        (
            if x < self.width - 1 { x } else { self.width - 1 },
            if y < self.height - 1 { y } else { self.height - 1 },
        )
    }

    /// Moves the brush to a pixel. Where it was somewhere before, it stamps there, around each of the
    /// points `between`, and at the pixel; else at the pixel alone.
    pub fn stamp_to(&mut self, x: usize, y: usize, half_size: usize, between: &[(usize, usize)])
        requires
            old(self)@.width + half_size <= usize::MAX,
            old(self)@.height + half_size <= usize::MAX,
        ensures
            final(self)@ == old(self)@.moved_to(x, y, half_size, between@),
            final(self)@.wf(),
            final(self)@.width == old(self)@.width,
            final(self)@.height == old(self)@.height,
            old(self)@.has_its_position() ==> final(self)@.has_its_position(),
    {
        proof {
            use_type_invariant(&*self);
            if self@.has_its_position() {
                move_stamps_its_end(self@, x, y, half_size, between@);
            }
        }
        let (x, y) = self.clamp(x, y);
        match self.last_pos {
            Some(last) => {
                self.stamp_line(last, (x, y), half_size, between);
            },
            None => {
                self.stamp_square(x, y, half_size);
            },
        }
        proof {
            use_type_invariant(&*self);
        }
        self.last_pos = Some((x, y));
    }

    /// The stamped pixels; `None` where there are none.
    pub fn bounded_spans(&self) -> (region: Option<SortedRanges>)
        requires
            self@.width <= u32::MAX,
            self@.height <= u32::MAX,
        ensures
            region is Some <==> self@.stamped != Set::<(int, int)>::empty(),
            region matches Some(r) ==> r@ == self@.stamped,
    {
        proof {
            use_type_invariant(self);
        }
        let len: usize = self.mask.len();
        let mut runs: Vec<Span> = Vec::new();
        let mut y: usize = 0;
        while y < self.height
            invariant
                self.mask@.len() == self.width * self.height,
                len == self.mask@.len(),
                0 < self.width <= u32::MAX,
                0 < self.height <= u32::MAX,
                y <= self.height,
                canonical(runs@),
                runs@.len() > 0 ==> runs@.last().y < y,
                forall|a: int, b: int|
                    #![trigger covers(runs@, a, b)]
                    covers(runs@, a, b) == (self@.stamped.contains((a, b)) && b < y),
            decreases self.height - y,
        {
            let mut x: usize = 0;
            while x < self.width
                invariant
                    self.mask@.len() == self.width * self.height,
                    len == self.mask@.len(),
                    0 < self.width <= u32::MAX,
                    0 < self.height <= u32::MAX,
                    x <= self.width,
                    y < self.height,
                    canonical(runs@),
                    runs@.len() > 0 ==> runs@.last().y < y || (runs@.last().y == y
                        && runs@.last().end <= x),
                    forall|a: int, b: int|
                        #![trigger covers(runs@, a, b)]
                        covers(runs@, a, b) == (self@.stamped.contains((a, b)) && (b < y || (b == y
                            && a < x))),
                decreases self.width - x,
            {
                let start: usize = x;
                while x < self.width && self.is_stamped(x, y)
                    invariant
                        start <= x <= self.width,
                        forall|a: int|
                            start <= a < x ==> #[trigger] self@.stamped.contains((a, y as int)),
                    decreases self.width - x,
                {
                    x += 1;
                }
                if start < x {
                    let run = Span { start: start as u32, end: x as u32, y: y as u32 };
                    let ghost was = runs@;
                    proof {
                        assert forall|k: int| 0 <= k < runs@.len() implies (
                        #[trigger] runs@[k]).wf() by {}
                    }
                    push_run(&mut runs, run);
                    proof {
                        lemma_last_end(was, runs@, run);
                        assert forall|a: int, b: int| #![trigger covers(runs@, a, b)]
                            covers(runs@, a, b) == (self@.stamped.contains((a, b)) && (b < y || (b
                                == y && a < x))) by {
                            assert(covers(runs@, a, b) == (covers(was, a, b) || run.has(a, b)));
                        }
                    }
                } else {
                    proof {
                        assert(!self@.stamped.contains((x as int, y as int)));
                    }
                    x += 1;
                }
            }
            y += 1;
        }
        proof {
            lemma_pixels_ext(runs@, self@.stamped);
            if runs@.len() > 0 {
                let s = runs@[0];
                assert(s.has(s.start as int, s.y as int));
                assert(covers(runs@, s.start as int, s.y as int));
                assert(self@.stamped.contains((s.start as int, s.y as int)));
            } else {
                crate::ranges::lemma_empty_runs(runs@);
            }
        }
        SortedRanges::from_runs(runs)
    }

    /// The part of the preview that changed since this was last asked, drawn anew.
    pub fn update_texture(&mut self) -> (patch: Option<PreviewPatch>)
        ensures
            final(self)@ == (StrokeModel { dirty: None, ..old(self)@ }),
            patch is Some <==> old(self)@.dirty is Some,
            patch matches Some(p) ==> {
                let d = old(self)@.dirty->0;
                &&& p.x == d.x_min
                &&& p.y == d.y_min
                &&& p.width == d.x_max - d.x_min + 1
                &&& p.height == d.y_max - d.y_min + 1
                &&& p.pixels@.len() == p.width * p.height
                &&& forall|i: int, j: int|
                    0 <= i < p.width && 0 <= j < p.height ==> #[trigger] p.pixels@[flat(
                        i,
                        j,
                        p.width as int,
                    )] == if old(self)@.stamped.contains((p.x + i, p.y + j)) {
                        PREVIEW_PIXEL
                    } else {
                        0u32
                    }
            },
    {
        proof {
            use_type_invariant(&*self);
        }
        let dirty = match self.dirty {
            Some(dirty) => dirty,
            None => {
                return None;
            },
        };
        self.dirty = None;
        let width: usize = dirty.x_max - dirty.x_min + 1;
        let height: usize = dirty.y_max - dirty.y_min + 1;
        let ghost stamped = self@.stamped;
        let mut pixels: Vec<u32> = Vec::new();
        let mut j: usize = 0;
        assert(0int * width == 0);
        while j < height
            invariant
                j <= height,
                dirty.wf(),
                width == dirty.x_max - dirty.x_min + 1,
                height == dirty.y_max - dirty.y_min + 1,
                self@.stamped == stamped,
                pixels@.len() == j * width,
                forall|a: int, b: int|
                    0 <= a < width && 0 <= b < j ==> #[trigger] pixels@[flat(a, b, width as int)]
                        == if stamped.contains((dirty.x_min + a, dirty.y_min + b)) {
                        PREVIEW_PIXEL
                    } else {
                        0u32
                    },
            decreases height - j,
        {
            let mut i: usize = 0;
            while i < width
                invariant
                    i <= width,
                    j < height,
                    dirty.wf(),
                    width == dirty.x_max - dirty.x_min + 1,
                    height == dirty.y_max - dirty.y_min + 1,
                    self@.stamped == stamped,
                    pixels@.len() == j * width + i,
                    forall|a: int, b: int|
                        0 <= a < width && (0 <= b < j || (b == j && a < i))
                            ==> #[trigger] pixels@[flat(a, b, width as int)]
                            == if stamped.contains((dirty.x_min + a, dirty.y_min + b)) {
                            PREVIEW_PIXEL
                        } else {
                            0u32
                        },
                decreases width - i,
            {
                let pixel: u32 = if self.is_stamped(dirty.x_min + i, dirty.y_min + j) {
                    PREVIEW_PIXEL
                } else {
                    0
                };
                let ghost was = pixels@;
                pixels.push(pixel);
                proof {
                    assert forall|a: int, b: int|
                        0 <= a < width && (0 <= b < j || (b == j && a < i + 1)) implies #[trigger] pixels@[flat(
                    a, b, width as int)] == if stamped.contains(
                        (dirty.x_min + a, dirty.y_min + b),
                    ) {
                        PREVIEW_PIXEL
                    } else {
                        0u32
                    } by {
                        if b < j {
                            lemma_flat_inside(a, b, width as int, j as int);
                            assert(width * j == j * width) by (nonlinear_arith);
                            assert(was[flat(a, b, width as int)] == pixels@[flat(a, b, width as int)]);
                        } else if a < i {
                            lemma_flat_inside(a, b, width as int, j + 1);
                            assert(was[flat(a, b, width as int)] == pixels@[flat(a, b, width as int)]);
                        }
                    }
                }
                i += 1;
            }
            assert((j + 1) * width == j * width + width) by (nonlinear_arith);
            j += 1;
        }
        assert(height * width == width * height) by (nonlinear_arith);
        Some(PreviewPatch { x: dirty.x_min, y: dirty.y_min, width, height, pixels })
    }
}

/// A line adds to the stroke and takes nothing away.
pub proof fn points_only_add(
    stroke: StrokeModel,
    points: Seq<(usize, usize)>,
    n: int,
    half_size: usize,
)
    ensures
        stroke.stamped.subset_of(stroke.stamp_points(points, n, half_size).stamped),
        stroke.stamp_points(points, n, half_size).width == stroke.width,
        stroke.stamp_points(points, n, half_size).height == stroke.height,
    decreases n,
{
    if n > 0 {
        points_only_add(stroke, points, n - 1, half_size);
    }
}

proof fn lemma_stamp(stroke: StrokeModel, cx: usize, cy: usize, half_size: usize)
    requires
        stroke.wf(),
        cx < stroke.width,
        cy < stroke.height,
    ensures
        stroke.stamp(cx, cy, half_size).wf(),
        stroke.stamped.subset_of(stroke.stamp(cx, cy, half_size).stamped),
        stroke.stamp(cx, cy, half_size).stamped.contains((cx as int, cy as int)),
{
    let added = square(cx, cy, half_size, stroke.width, stroke.height);
    let after = stroke.stamp(cx, cy, half_size);
    assert(added.has(cx as int, cy as int));
    assert(added.area().contains((cx as int, cy as int)));
    assert forall|x: int, y: int| #[trigger] after.stamped.contains((x, y)) implies after.bounds.has(
        x,
        y,
    ) by {
        if !added.area().contains((x, y)) {
            assert(stroke.stamped.contains((x, y)));
        }
    }
}

proof fn lemma_stamp_points(
    stroke: StrokeModel,
    points: Seq<(usize, usize)>,
    n: int,
    half_size: usize,
)
    requires
        stroke.wf(),
        0 <= n <= points.len(),
    ensures
        stroke.stamp_points(points, n, half_size).wf(),
        stroke.stamp_points(points, n, half_size).width == stroke.width,
        stroke.stamp_points(points, n, half_size).height == stroke.height,
        stroke.stamped.subset_of(stroke.stamp_points(points, n, half_size).stamped),
    decreases n,
{
    if n > 0 {
        lemma_stamp_points(stroke, points, n - 1, half_size);
        let p = stroke.clamped(points[n - 1]);
        lemma_stamp(stroke.stamp_points(points, n - 1, half_size), p.0, p.1, half_size);
    }
}

/// The brush has stamped the pixel it moved to. Nothing is unset, and all that is stamped stays
/// inside the bounds.
pub proof fn move_stamps_its_end(
    stroke: StrokeModel,
    x: usize,
    y: usize,
    half_size: usize,
    between: Seq<(usize, usize)>,
)
    requires
        stroke.wf(),
        stroke.has_its_position(),
    ensures
        ({
            let after = stroke.moved_to(x, y, half_size, between);
            &&& after.last_pos == Some(stroke.clamped((x, y)))
            &&& after.has_its_position()
            &&& stroke.stamped.subset_of(after.stamped)
            &&& after.wf()
            &&& after.width == stroke.width
            &&& after.height == stroke.height
        }),
{
    let p = stroke.clamped((x, y));
    let drawn = match stroke.last_pos {
        Some(last) => stroke.stamp_way(last, p, between, half_size),
        None => stroke.stamp(p.0, p.1, half_size),
    };
    match stroke.last_pos {
        Some(last) => {
            if last != p {
                let (first, end) = (stroke.clamped(last), stroke.clamped(p));
                let started = stroke.stamp(first.0, first.1, half_size);
                lemma_stamp(stroke, first.0, first.1, half_size);
                let way = started.stamp_points(between, between.len() as int, half_size);
                lemma_stamp_points(started, between, between.len() as int, half_size);
                lemma_stamp(way, end.0, end.1, half_size);
            }
        },
        None => {
            lemma_stamp(stroke, p.0, p.1, half_size);
        },
    }
    let after = stroke.moved_to(x, y, half_size, between);
    assert(drawn.wf());
    assert(after.stamped == drawn.stamped && after.bounds == drawn.bounds);
    assert forall|a: int, b: int| #[trigger] after.stamped.contains((a, b)) implies after.bounds.has(
        a,
        b,
    ) by {
        assert(drawn.stamped.contains((a, b)));
    }
}

/// One move of the brush.
pub struct BrushMove {
    pub x: usize,
    pub y: usize,
    pub half_size: usize,
    pub between: Seq<(usize, usize)>,
}

/// The stroke after the first `n` moves.
pub open spec fn after_moves(stroke: StrokeModel, moves: Seq<BrushMove>, n: int) -> StrokeModel
    decreases n,
{
    if n <= 0 {
        stroke
    } else {
        let m = moves[n - 1];
        after_moves(stroke, moves, n - 1).moved_to(m.x, m.y, m.half_size, m.between)
    }
}

/// After any number of moves a stroke is at the last pixel it moved to, has stamped that pixel and
/// all that it had stamped before, and keeps all of it inside its bounds.
pub proof fn stroke_covers_where_it_is(
    width: int,
    height: int,
    x: usize,
    y: usize,
    moves: Seq<BrushMove>,
    n: int,
)
    requires
        x < width <= usize::MAX,
        y < height <= usize::MAX,
        0 <= n <= moves.len(),
    ensures
        ({
            let start = new_stroke(width, height, x, y);
            let after = after_moves(start, moves, n);
            &&& after.wf()
            &&& after.has_its_position()
            &&& n > 0 ==> after.last_pos == Some(start.clamped((moves[n - 1].x, moves[n - 1].y)))
            &&& n > 0 ==> after_moves(start, moves, n - 1).stamped.subset_of(after.stamped)
            &&& after.width == width
            &&& after.height == height
        }),
    decreases n,
{
    let start = new_stroke(width, height, x, y);
    if n > 0 {
        stroke_covers_where_it_is(width, height, x, y, moves, n - 1);
        let m = moves[n - 1];
        move_stamps_its_end(
            after_moves(start, moves, n - 1),
            m.x,
            m.y,
            m.half_size,
            m.between,
        );
    }
}

/// All that is stamped is inside the image.
pub proof fn stroke_stays_inside(stroke: StrokeModel, x: int, y: int)
    requires
        stroke.wf(),
        stroke.stamped.contains((x, y)),
    ensures
        stroke.in_image(x, y),
{
    assert(stroke.bounds.has(x, y));
}

/// Stamping a square again changes nothing of what is stamped.
pub proof fn stamp_is_idempotent(stroke: StrokeModel, cx: usize, cy: usize, half_size: usize)
    ensures
        stroke.stamp(cx, cy, half_size).stamp(cx, cy, half_size).stamped == stroke.stamp(
            cx,
            cy,
            half_size,
        ).stamped,
{
    let once = stroke.stamp(cx, cy, half_size).stamped;
    assert(once.union(square(cx, cy, half_size, stroke.width, stroke.height).area()) =~= once);
}

/// The last run ends where the pushed run ends.
proof fn lemma_last_end(was: Seq<Span>, runs: Seq<Span>, run: Span)
    requires
        canonical(runs),
        runs.len() > 0,
        starts_by(runs.last(), run),
        run.wf(),
        forall|a: int, b: int|
            #![trigger covers(runs, a, b)]
            covers(runs, a, b) == (covers(was, a, b) || run.has(a, b)),
        forall|a: int, b: int|
            #![trigger covers(was, a, b)]
            covers(was, a, b) ==> b < run.y || (b == run.y && a < run.end),
    ensures
        runs.last().y < run.y || (runs.last().y == run.y && runs.last().end <= run.end),
{
    let last = runs.last();
    assert(last.has(last.end - 1, last.y as int));
    assert(covers(runs, last.end - 1, last.y as int));
}

/// Marks all pixels of the rectangle.
fn mark_rect(mask: &mut Vec<bool>, width: usize, height: usize, rect: PixelRect)
    requires
        old(mask)@.len() == width * height,
        rect.wf(),
        rect.x_max < width,
        rect.y_max < height,
    ensures
        final(mask)@.len() == width * height,
        forall|x: int, y: int|
            0 <= x < width && 0 <= y < height ==> #[trigger] final(mask)@[flat(
                x,
                y,
                width as int,
            )] == (old(mask)@[flat(x, y, width as int)] || rect.has(x, y)),
{
    let len: usize = mask.len();
    let mut py: usize = rect.y_min;
    let ghost start = mask@;
    while py <= rect.y_max
        invariant
            mask@.len() == len,
            len == width * height,
            rect.wf(),
            rect.x_max < width,
            rect.y_max < height,
            rect.y_min <= py <= rect.y_max + 1,
            forall|x: int, y: int|
                0 <= x < width && 0 <= y < height ==> #[trigger] mask@[flat(x, y, width as int)]
                    == (start[flat(x, y, width as int)] || (rect.has(x, y) && y < py)),
        decreases rect.y_max + 1 - py,
    {
        proof {
            lemma_flat_inside(0, py as int, width as int, height as int);
        }
        let row: usize = py * width;
        let mut px: usize = rect.x_min;
        while px <= rect.x_max
            invariant
                mask@.len() == len,
                len == width * height,
                rect.wf(),
                rect.x_max < width,
                rect.y_max < height,
                rect.y_min <= py <= rect.y_max,
                rect.x_min <= px <= rect.x_max + 1,
                row == py * width,
                forall|x: int, y: int|
                    0 <= x < width && 0 <= y < height ==> #[trigger] mask@[flat(
                        x,
                        y,
                        width as int,
                    )] == (start[flat(x, y, width as int)] || (rect.has(x, y) && (y < py || (y
                        == py && x < px)))),
            decreases rect.x_max + 1 - px,
        {
            proof {
                lemma_flat_inside(px as int, py as int, width as int, height as int);
            }
            let ghost was = mask@;
            mask.set(row + px, true);
            proof {
                assert forall|x: int, y: int| 0 <= x < width && 0 <= y
                    < height implies #[trigger] mask@[flat(x, y, width as int)] == (start[flat(
                    x,
                    y,
                    width as int,
                )] || (rect.has(x, y) && (y < py || (y == py && x < px + 1)))) by {
                    lemma_flat_inside(x, y, width as int, height as int);
                    lemma_flat_distinct(x, y, px as int, py as int, width as int);
                    assert(was[flat(x, y, width as int)] == (start[flat(x, y, width as int)] || (
                    rect.has(x, y) && (y < py || (y == py && x < px)))));
                }
            }
            px += 1;
        }
        py += 1;
    }
}

/// A square of the brush holds the pixels of the image that are no further from its center than the
/// brush reaches, to the left, to the right, up and down.
pub proof fn square_is_within_reach(
    cx: usize,
    cy: usize,
    half_size: usize,
    width: int,
    height: int,
    x: int,
    y: int,
)
    requires
        cx < width <= usize::MAX,
        cy < height <= usize::MAX,
    ensures
        square(cx, cy, half_size, width, height).area().contains((x, y)) <==> {
            &&& 0 <= x < width
            &&& 0 <= y < height
            &&& cx - half_size <= x <= cx + half_size
            &&& cy - half_size <= y <= cy + half_size
        },
{
}

proof fn lemma_points_pixels(
    stroke: StrokeModel,
    points: Seq<(usize, usize)>,
    n: int,
    half_size: usize,
    x: int,
    y: int,
)
    requires
        stroke.wf(),
        0 <= n <= points.len(),
    ensures
        stroke.stamp_points(points, n, half_size).stamped.contains((x, y)) <==> {
            ||| stroke.stamped.contains((x, y))
            ||| 0 <= x < stroke.width && 0 <= y < stroke.height && exists|k: int|
                0 <= k < n && near(stroke, #[trigger] points[k], half_size, x, y)
        },
    decreases n,
{
    if n > 0 {
        lemma_points_pixels(stroke, points, n - 1, half_size, x, y);
        lemma_stamp_points(stroke, points, n - 1, half_size);
        let p = stroke.clamped(points[n - 1]);
        square_is_within_reach(p.0, p.1, half_size, stroke.width, stroke.height, x, y);
        if stroke.stamp_points(points, n, half_size).stamped.contains((x, y))
            && !stroke.stamp_points(points, n - 1, half_size).stamped.contains((x, y)) {
            assert(near(stroke, points[n - 1], half_size, x, y));
        }
    }
}

/// Whether the pixel is no further than the reach of the brush from the point, moved into the image.
spec fn near(stroke: StrokeModel, point: (usize, usize), half_size: usize, x: int, y: int) -> bool {
    let cx = if point.0 < stroke.width {
        point.0 as int
    } else {
        stroke.width - 1
    };
    let cy = if point.1 < stroke.height {
        point.1 as int
    } else {
        stroke.height - 1
    };
    cx - half_size <= x <= cx + half_size && cy - half_size <= y <= cy + half_size
}

/// What a move stamps, pixel by pixel. Where the brush comes from another pixel, it is the pixels of
/// the image that are no further than the full reach of the brush from where it was, from where it is
/// now, or from one of the points between, each moved into the image. The first move stamps around
/// where it leads, and a move that leads nowhere stamps nothing.
pub proof fn moves_stamp_all_along(
    stroke: StrokeModel,
    to: (usize, usize),
    half_size: usize,
    between: Seq<(usize, usize)>,
    x: int,
    y: int,
)
    requires
        stroke.wf(),
        stroke.last_pos matches Some(last) ==> last.0 < stroke.width && last.1 < stroke.height,
    ensures
        ({
            let after = stroke.moved_to(to.0, to.1, half_size, between);
            let tx = if to.0 < stroke.width {
                to.0 as int
            } else {
                stroke.width - 1
            };
            let ty = if to.1 < stroke.height {
                to.1 as int
            } else {
                stroke.height - 1
            };
            let around_end = tx - half_size <= x <= tx + half_size && ty - half_size <= y <= ty
                + half_size;
            let around_point = exists|k: int|
                #![trigger between[k]]
                0 <= k < between.len() && {
                    let px = if between[k].0 < stroke.width {
                        between[k].0 as int
                    } else {
                        stroke.width - 1
                    };
                    let py = if between[k].1 < stroke.height {
                        between[k].1 as int
                    } else {
                        stroke.height - 1
                    };
                    px - half_size <= x <= px + half_size && py - half_size <= y <= py + half_size
                };
            let in_image = 0 <= x < stroke.width && 0 <= y < stroke.height;
            &&& after.last_pos == Some((tx as usize, ty as usize))
            &&& after.stamped.contains((x, y)) <==> stroke.stamped.contains((x, y)) || (in_image
                && match stroke.last_pos {
                None => around_end,
                Some((lx, ly)) => !(lx == tx && ly == ty) && (around_end || around_point || (lx
                    - half_size <= x <= lx + half_size && ly - half_size <= y <= ly + half_size)),
            })
        }),
{
    let p = stroke.clamped(to);
    square_is_within_reach(p.0, p.1, half_size, stroke.width, stroke.height, x, y);
    if let Some(last) = stroke.last_pos {
        if last != p {
            let first = stroke.clamped(last);
            square_is_within_reach(first.0, first.1, half_size, stroke.width, stroke.height, x, y);
            lemma_stamp(stroke, first.0, first.1, half_size);
            let started = stroke.stamp(first.0, first.1, half_size);
            lemma_points_pixels(started, between, between.len() as int, half_size, x, y);
            lemma_stamp_points(started, between, between.len() as int, half_size);
            if exists|k: int|
                0 <= k < between.len() && near(started, #[trigger] between[k], half_size, x, y) {
                let k = choose|k: int|
                    0 <= k < between.len() && near(started, #[trigger] between[k], half_size, x, y);
                assert(near(started, between[k], half_size, x, y));
            }
            assert forall|k: int| 0 <= k < between.len() implies near(
                started,
                #[trigger] between[k],
                half_size,
                x,
                y,
            ) == ({
                let px = if between[k].0 < stroke.width {
                    between[k].0 as int
                } else {
                    stroke.width - 1
                };
                let py = if between[k].1 < stroke.height {
                    between[k].1 as int
                } else {
                    stroke.height - 1
                };
                px - half_size <= x <= px + half_size && py - half_size <= y <= py + half_size
            }) by {}
        }
    }
}

/// What was stamped since the preview was last drawn is inside the rectangle that is to be drawn anew.
pub proof fn preview_misses_nothing(
    stroke: StrokeModel,
    x: usize,
    y: usize,
    half_size: usize,
    between: Seq<(usize, usize)>,
    px: int,
    py: int,
)
    requires
        stroke.wf(),
    ensures
        ({
            let after = stroke.moved_to(x, y, half_size, between);
            &&& after.stamped.contains((px, py)) && !stroke.stamped.contains((px, py)) ==> {
                &&& after.dirty matches Some(d)
                &&& d.x_min <= px <= d.x_max
                &&& d.y_min <= py <= d.y_max
            }
            &&& (stroke.dirty matches Some(d) && d.x_min <= px <= d.x_max && d.y_min <= py
                <= d.y_max) ==> (after.dirty matches Some(e) && e.x_min <= px <= e.x_max && e.y_min <= py
                <= e.y_max)
        }),
{
    let p = stroke.clamped((x, y));
    if let Some(last) = stroke.last_pos {
        if last != p {
            let first = stroke.clamped(last);
            let started = stroke.stamp(first.0, first.1, half_size);
            lemma_dirty_points(started, between, between.len() as int, half_size, px, py);
        }
    }
}

proof fn lemma_dirty_points(
    stroke: StrokeModel,
    points: Seq<(usize, usize)>,
    n: int,
    half_size: usize,
    px: int,
    py: int,
)
    ensures
        ({
            let after = stroke.stamp_points(points, n, half_size);
            &&& after.stamped.contains((px, py)) && !stroke.stamped.contains((px, py)) ==> (
            after.dirty matches Some(d) && d.has(px, py))
            &&& (stroke.dirty matches Some(d) && d.has(px, py)) ==> (after.dirty matches Some(e)
                && e.has(px, py))
        }),
    decreases n,
{
    if n > 0 {
        lemma_dirty_points(stroke, points, n - 1, half_size, px, py);
    }
}

/// What a line stamps, pixel by pixel: the pixels of the image that are no further than the full reach
/// of the brush from either of its ends, or from one of the points between, each moved into the
/// image. A line from a pixel to itself stamps nothing.
pub proof fn lines_stamp_all_along(
    stroke: StrokeModel,
    from: (usize, usize),
    to: (usize, usize),
    half_size: usize,
    between: Seq<(usize, usize)>,
    x: int,
    y: int,
)
    requires
        stroke.wf(),
    ensures
        ({
            let after = stroke.stamp_way(from, to, between, half_size);
            let fx = if from.0 < stroke.width {
                from.0 as int
            } else {
                stroke.width - 1
            };
            let fy = if from.1 < stroke.height {
                from.1 as int
            } else {
                stroke.height - 1
            };
            let tx = if to.0 < stroke.width {
                to.0 as int
            } else {
                stroke.width - 1
            };
            let ty = if to.1 < stroke.height {
                to.1 as int
            } else {
                stroke.height - 1
            };
            let around_start = fx - half_size <= x <= fx + half_size && fy - half_size <= y <= fy
                + half_size;
            let around_end = tx - half_size <= x <= tx + half_size && ty - half_size <= y <= ty
                + half_size;
            let around_point = exists|k: int|
                #![trigger between[k]]
                0 <= k < between.len() && {
                    let px = if between[k].0 < stroke.width {
                        between[k].0 as int
                    } else {
                        stroke.width - 1
                    };
                    let py = if between[k].1 < stroke.height {
                        between[k].1 as int
                    } else {
                        stroke.height - 1
                    };
                    px - half_size <= x <= px + half_size && py - half_size <= y <= py + half_size
                };
            let in_image = 0 <= x < stroke.width && 0 <= y < stroke.height;
            &&& after.last_pos == stroke.last_pos
            &&& after.width == stroke.width && after.height == stroke.height
            &&& after.stamped.contains((x, y)) <==> stroke.stamped.contains((x, y)) || (!(from.0
                == to.0 && from.1 == to.1) && in_image && (around_start || around_end
                || around_point))
        }),
{
    if from != to {
        let (first, last) = (stroke.clamped(from), stroke.clamped(to));
        square_is_within_reach(first.0, first.1, half_size, stroke.width, stroke.height, x, y);
        square_is_within_reach(last.0, last.1, half_size, stroke.width, stroke.height, x, y);
        lemma_stamp(stroke, first.0, first.1, half_size);
        let started = stroke.stamp(first.0, first.1, half_size);
        lemma_points_pixels(started, between, between.len() as int, half_size, x, y);
        lemma_stamp_points(started, between, between.len() as int, half_size);
        lemma_points_keep_position(started, between, between.len() as int, half_size);
        assert forall|k: int| 0 <= k < between.len() implies near(
            started,
            #[trigger] between[k],
            half_size,
            x,
            y,
        ) == ({
            let px = if between[k].0 < stroke.width {
                between[k].0 as int
            } else {
                stroke.width - 1
            };
            let py = if between[k].1 < stroke.height {
                between[k].1 as int
            } else {
                stroke.height - 1
            };
            px - half_size <= x <= px + half_size && py - half_size <= y <= py + half_size
        }) by {}
    }
}

proof fn lemma_points_keep_position(
    stroke: StrokeModel,
    points: Seq<(usize, usize)>,
    n: int,
    half_size: usize,
)
    ensures
        stroke.stamp_points(points, n, half_size).last_pos == stroke.last_pos,
    decreases n,
{
    if n > 0 {
        lemma_points_keep_position(stroke, points, n - 1, half_size);
    }
}

/// A stamp marks the pixels of its square and no others, and the rectangle that is to be drawn anew
/// grows to hold the square, and no further than that.
pub proof fn stamps_grow_the_dirty_part(
    stroke: StrokeModel,
    cx: usize,
    cy: usize,
    half_size: usize,
    x: int,
    y: int,
    around: PixelRect,
)
    requires
        cx < stroke.width <= usize::MAX,
        cy < stroke.height <= usize::MAX,
    ensures
        ({
            let after = stroke.stamp(cx, cy, half_size);
            let near = 0 <= x < stroke.width && 0 <= y < stroke.height && cx - half_size <= x <= cx
                + half_size && cy - half_size <= y <= cy + half_size;
            &&& after.stamped.contains((x, y)) <==> stroke.stamped.contains((x, y)) || near
            &&& after.dirty matches Some(d)
            &&& near ==> d.x_min <= x <= d.x_max && d.y_min <= y <= d.y_max
            &&& (stroke.dirty matches Some(e) && e.x_min <= x <= e.x_max && e.y_min <= y <= e.y_max)
                ==> d.x_min <= x <= d.x_max && d.y_min <= y <= d.y_max
            &&& (stroke.dirty matches Some(e) ==> around.x_min <= e.x_min && e.x_max <= around.x_max
                && around.y_min <= e.y_min && e.y_max <= around.y_max) && (around.x_min == 0
                || around.x_min <= cx - half_size) && (around.y_min == 0 || around.y_min <= cy
                - half_size) && (around.x_max >= cx + half_size || around.x_max >= stroke.width - 1)
                && (around.y_max >= cy + half_size || around.y_max >= stroke.height - 1)
                ==> around.x_min <= d.x_min && d.x_max <= around.x_max && around.y_min <= d.y_min
                && d.y_max <= around.y_max
            &&& after.last_pos == stroke.last_pos
            &&& after.width == stroke.width && after.height == stroke.height
        }),
{
    square_is_within_reach(cx, cy, half_size, stroke.width, stroke.height, x, y);
    let added = square(cx, cy, half_size, stroke.width, stroke.height);
    assert(added.area().contains((x, y)) == added.has(x, y));
}

/// The rectangle that is to be drawn anew after a move is no larger than it has to be: a rectangle
/// that holds what was to be drawn anew before, and the squares of all stamps of the move, holds it.
pub proof fn previews_draw_no_more_than_needed(
    stroke: StrokeModel,
    x: usize,
    y: usize,
    half_size: usize,
    between: Seq<(usize, usize)>,
    around: PixelRect,
)
    requires
        stroke.wf(),
        stroke.dirty matches Some(d) ==> inside_of(d, around),
        stroke.last_pos matches Some(last) ==> inside_of(
            stroke.square_around(last, half_size),
            around,
        ),
        inside_of(stroke.square_around((x, y), half_size), around),
        forall|k: int|
            0 <= k < between.len() ==> inside_of(
                stroke.square_around(#[trigger] between[k], half_size),
                around,
            ),
    ensures
        stroke.moved_to(x, y, half_size, between).dirty matches Some(d) ==> inside_of(d, around),
{
    let p = stroke.clamped((x, y));
    if let Some(last) = stroke.last_pos {
        if last != p {
            let first = stroke.clamped(last);
            let started = stroke.stamp(first.0, first.1, half_size);
            assert forall|k: int| 0 <= k < between.len() implies inside_of(
                started.square_around(#[trigger] between[k], half_size),
                around,
            ) by {
                assert(inside_of(stroke.square_around(between[k], half_size), around));
            }
            lemma_dirty_inside(started, between, between.len() as int, half_size, around);
            points_only_add(started, between, between.len() as int, half_size);
            assert(stroke.clamped(p) == p);
        }
    }
}

/// Whether one rectangle is inside another.
pub open spec fn inside_of(a: PixelRect, b: PixelRect) -> bool {
    b.x_min <= a.x_min && a.x_max <= b.x_max && b.y_min <= a.y_min && a.y_max <= b.y_max
}

impl StrokeModel {
    /// The square of the brush around a point, moved into the image.
    pub open spec fn square_around(self, point: (usize, usize), half_size: usize) -> PixelRect {
        let p = self.clamped(point);
        square(p.0, p.1, half_size, self.width, self.height)
    }
}

proof fn lemma_dirty_inside(
    stroke: StrokeModel,
    points: Seq<(usize, usize)>,
    n: int,
    half_size: usize,
    around: PixelRect,
)
    requires
        0 <= n <= points.len(),
        stroke.dirty matches Some(d) ==> inside_of(d, around),
        forall|k: int|
            0 <= k < points.len() ==> inside_of(
                stroke.square_around(#[trigger] points[k], half_size),
                around,
            ),
    ensures
        stroke.stamp_points(points, n, half_size).dirty matches Some(d) ==> inside_of(d, around),
    decreases n,
{
    if n > 0 {
        lemma_dirty_inside(stroke, points, n - 1, half_size, around);
        points_only_add(stroke, points, n - 1, half_size);
        assert(inside_of(stroke.square_around(points[n - 1], half_size), around));
    }
}

/// Lists of pixels start with the first pixel of the first row, go on to the right, and have a row
/// below the other. The preview is half transparent black.
pub proof fn pixels_go_row_by_row(x: int, y: int, width: int)
    ensures
        flat(0, 0, width) == 0,
        flat(x + 1, y, width) == flat(x, y, width) + 1,
        flat(x, y + 1, width) == flat(x, y, width) + width,
        PREVIEW_PIXEL / 0x100_0000 == 128,
        PREVIEW_PIXEL % 0x100_0000 == 0,
{
    assert(0 * width == 0);
    assert((y + 1) * width == y * width + width) by (nonlinear_arith);
}

} // verus!
