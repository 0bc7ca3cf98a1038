//! Horizontal pixel runs and the canonical run lists that pixel regions are made of.
use vstd::prelude::*;

verus! {

/// A horizontal run of pixels: columns `start..end` of row `y`.
#[derive(Clone, Copy, PartialEq, Eq, Structural, Debug)]
pub struct Span {
    pub start: u32,
    pub end: u32,
    pub y: u32,
}

impl Span {
    /// A run is never empty, and the row below it is still a valid row number.
    pub open spec fn wf(self) -> bool {
        self.start < self.end && self.y < u32::MAX
    }

    pub open spec fn has(self, x: int, y: int) -> bool {
        self.y == y && self.start <= x < self.end
    }

    /// The run of the columns `x` in row `y`.
    pub fn new(x: core::ops::Range<u32>, y: u32) -> (span: Span)
        requires
            x.start < x.end,
            y < u32::MAX,
        ensures
            span.wf(),
            span.start == x.start,
            span.end == x.end,
            span.y == y,
    {
        Span { start: x.start, end: x.end, y }
    }
}

/// `a` lies strictly before `b` in reading order, with at least one pixel between them when
/// they share a row.
pub open spec fn before(a: Span, b: Span) -> bool {
    a.y < b.y || (a.y == b.y && a.end < b.start)
}

/// `a` starts no later than `b` in reading order.
pub open spec fn starts_by(a: Span, b: Span) -> bool {
    a.y < b.y || (a.y == b.y && a.start <= b.start)
}

/// The canonical form of a run list: maximal runs in reading order.
pub open spec fn canonical(s: Seq<Span>) -> bool {
    &&& forall|i: int| 0 <= i < s.len() ==> (#[trigger] s[i]).wf()
    &&& forall|i: int, j: int| 0 <= i < j < s.len() ==> before(#[trigger] s[i], #[trigger] s[j])
}

/// Whether one of the first `n` runs holds the pixel `(x, y)`.
pub open spec fn covers_upto(s: Seq<Span>, n: int, x: int, y: int) -> bool {
    exists|i: int| 0 <= i < n && (#[trigger] s[i]).has(x, y)
}

/// Whether one of the runs holds the pixel `(x, y)`.
pub open spec fn covers(s: Seq<Span>, x: int, y: int) -> bool {
    covers_upto(s, s.len() as int, x, y)
}

/// The pixels that a run list holds.
pub open spec fn pixels(s: Seq<Span>) -> Set<(int, int)> {
    Set::new(|p: (int, int)| covers(s, p.0, p.1))
}

/// Equal membership, pixel by pixel, makes the pixel sets equal.
pub(crate) proof fn lemma_pixels_ext(s: Seq<Span>, set: Set<(int, int)>)
    requires
        forall|x: int, y: int| #![trigger covers(s, x, y)] covers(s, x, y) == set.contains((x, y)),
    ensures
        pixels(s) == set,
{
    assert forall|p: (int, int)| pixels(s).contains(p) == set.contains(p) by {
        assert(covers(s, p.0, p.1) == set.contains((p.0, p.1)));
    }
    assert(pixels(s) =~= set);
}

/// A region has one canonical run list: two canonical lists that hold the same pixels are equal.
pub proof fn canonical_is_unique(a: Seq<Span>, b: Seq<Span>)
    requires
        canonical(a),
        canonical(b),
        pixels(a) == pixels(b),
    ensures
        a == b,
{
    assert forall|x: int, y: int| covers(a, x, y) == covers(b, x, y) by {
        assert(pixels(a).contains((x, y)) == covers(a, x, y));
        assert(pixels(b).contains((x, y)) == covers(b, x, y));
    }
    lemma_unique(a, b);
}

proof fn lemma_first_pixel(a: Seq<Span>, b: Seq<Span>)
    requires
        canonical(a),
        canonical(b),
        a.len() > 0,
        forall|x: int, y: int| covers(a, x, y) ==> covers(b, x, y),
    ensures
        b.len() > 0,
        starts_by(b[0], a[0]),
{
    let x = a[0].start as int;
    let y = a[0].y as int;
    assert(a[0].has(x, y));
    assert(covers(a, x, y));
    let k = choose|k: int| 0 <= k < b.len() && (#[trigger] b[k]).has(x, y);
    if k > 0 {
        assert(before(b[0], b[k]));
    }
}

proof fn lemma_first_end(a: Seq<Span>, b: Seq<Span>)
    requires
        canonical(a),
        canonical(b),
        a.len() > 0,
        b.len() > 0,
        a[0].y == b[0].y,
        a[0].start == b[0].start,
        forall|x: int, y: int| covers(a, x, y) ==> covers(b, x, y),
    ensures
        a[0].end <= b[0].end,
{
    if a[0].end > b[0].end {
        let x = b[0].end as int;
        let y = b[0].y as int;
        assert(a[0].has(x, y));
        assert(covers(a, x, y));
        let k = choose|k: int| 0 <= k < b.len() && (#[trigger] b[k]).has(x, y);
        if k > 0 {
            assert(before(b[0], b[k]));
        }
    }
}

proof fn lemma_rest_covered(a: Seq<Span>, b: Seq<Span>)
    requires
        canonical(a),
        canonical(b),
        a.len() > 0,
        b.len() > 0,
        a[0] == b[0],
        forall|x: int, y: int| covers(a, x, y) ==> covers(b, x, y),
    ensures
        forall|x: int, y: int| covers(a.drop_first(), x, y) ==> covers(b.drop_first(), x, y),
{
    let ra = a.drop_first();
    let rb = b.drop_first();
    assert forall|x: int, y: int| covers(ra, x, y) implies covers(rb, x, y) by {
        let i = choose|i: int| 0 <= i < ra.len() && (#[trigger] ra[i]).has(x, y);
        assert(a[i + 1].has(x, y));
        assert(before(a[0], a[i + 1]));
        assert(covers(a, x, y));
        let k = choose|k: int| 0 <= k < b.len() && (#[trigger] b[k]).has(x, y);
        assert(k > 0);
        assert(rb[k - 1].has(x, y));
    }
}

pub(crate) proof fn lemma_unique(a: Seq<Span>, b: Seq<Span>)
    requires
        canonical(a),
        canonical(b),
        forall|x: int, y: int| covers(a, x, y) == covers(b, x, y),
    ensures
        a == b,
    decreases a.len(),
{
    if a.len() == 0 {
        if b.len() > 0 {
            lemma_first_pixel(b, a);
        }
    } else {
        lemma_first_pixel(a, b);
        lemma_first_pixel(b, a);
        lemma_first_end(a, b);
        lemma_first_end(b, a);
        lemma_rest_covered(a, b);
        lemma_rest_covered(b, a);
        let ra = a.drop_first();
        let rb = b.drop_first();
        lemma_unique(ra, rb);
        assert(a =~= seq![a[0]] + ra);
        assert(b =~= seq![b[0]] + rb);
    }
}

/// Appends the run `s` to a canonical list whose runs all start no later, joining it with the
/// last run where the two touch or overlap.
pub(crate) fn push_run(out: &mut Vec<Span>, s: Span)
    requires
        canonical(old(out)@),
        s.wf(),
        old(out)@.len() > 0 ==> starts_by(old(out)@.last(), s),
    ensures
        canonical(final(out)@),
        final(out)@.len() > 0,
        starts_by(final(out)@.last(), s),
        old(out)@.len() == 0 || before(old(out)@.last(), s) ==> final(out)@ == old(out)@.push(s),
        forall|x: int, y: int|
            #![trigger covers(final(out)@, x, y)]
            covers(final(out)@, x, y) == (covers(old(out)@, x, y) || s.has(x, y)),
{
    let ghost before_push = out@;
    let n: usize = out.len();
    if n > 0 && out[n - 1].y == s.y && s.start <= out[n - 1].end {
        let last: Span = out[n - 1];
        if s.end > last.end {
            let joined = Span { start: last.start, end: s.end, y: s.y };
            out.set(n - 1, joined);
            proof {
                assert forall|x: int, y: int|
                    covers(out@, x, y) == (covers(before_push, x, y) || s.has(x, y)) by {
                    if covers(out@, x, y) {
                        let i = choose|i: int| 0 <= i < out@.len() && (#[trigger] out@[i]).has(x, y);
                        if i == n - 1 {
                            assert(before_push[i].has(x, y) || s.has(x, y));
                        } else {
                            assert(before_push[i].has(x, y));
                        }
                    }
                    if covers(before_push, x, y) {
                        let i = choose|i: int|
                            0 <= i < before_push.len() && (#[trigger] before_push[i]).has(x, y);
                        assert(out@[i].has(x, y));
                    }
                    if s.has(x, y) {
                        assert(out@[n - 1].has(x, y));
                    }
                }
            }
        } else {
            assert forall|x: int, y: int| s.has(x, y) implies covers(out@, x, y) by {
                assert(out@[n - 1].has(x, y));
            }
        }
    } else {
        out.push(s);
        proof {
            assert forall|x: int, y: int|
                covers(out@, x, y) == (covers(before_push, x, y) || s.has(x, y)) by {
                if covers(out@, x, y) {
                    let i = choose|i: int| 0 <= i < out@.len() && (#[trigger] out@[i]).has(x, y);
                    if i < n {
                        assert(before_push[i].has(x, y));
                    }
                }
                if covers(before_push, x, y) {
                    let i = choose|i: int|
                        0 <= i < before_push.len() && (#[trigger] before_push[i]).has(x, y);
                    assert(out@[i].has(x, y));
                }
                if s.has(x, y) {
                    assert(out@[n as int].has(x, y));
                }
            }
            assert forall|i: int, j: int| 0 <= i < j < out@.len() implies before(
                #[trigger] out@[i],
                #[trigger] out@[j],
            ) by {
                if j == n {
                    assert(before_push.last() == before_push[n - 1]);
                    if i < n - 1 {
                        assert(before(before_push[i], before_push[n - 1]));
                    }
                }
            }
        }
    }
}

pub(crate) proof fn lemma_upto_step(s: Seq<Span>, n: int)
    requires
        0 <= n < s.len(),
    ensures
        forall|x: int, y: int|
            #![trigger covers_upto(s, n + 1, x, y)]
            covers_upto(s, n + 1, x, y) == (covers_upto(s, n, x, y) || s[n].has(x, y)),
{
    assert forall|x: int, y: int|
        #![trigger covers_upto(s, n + 1, x, y)]
        covers_upto(s, n + 1, x, y) == (covers_upto(s, n, x, y) || s[n].has(x, y)) by {
        if covers_upto(s, n + 1, x, y) {
            let i = choose|i: int| 0 <= i < n + 1 && (#[trigger] s[i]).has(x, y);
            if i < n {
                assert(covers_upto(s, n, x, y));
            }
        }
        if covers_upto(s, n, x, y) {
            let i = choose|i: int| 0 <= i < n && (#[trigger] s[i]).has(x, y);
            assert(s[i].has(x, y));
        }
    }
}

/// The runs of every pixel that `a` or `b` holds.
pub(crate) fn union_runs(a: &[Span], b: &[Span]) -> (out: Vec<Span>)
    requires
        canonical(a@),
        canonical(b@),
    ensures
        canonical(out@),
        out@.len() > 0 <==> (a@.len() > 0 || b@.len() > 0),
        forall|x: int, y: int|
            #![trigger covers(out@, x, y)]
            covers(out@, x, y) == (covers(a@, x, y) || covers(b@, x, y)),
{
    let mut out: Vec<Span> = Vec::new();
    let mut i: usize = 0;
    let mut j: usize = 0;
    while i < a.len() || j < b.len()
        invariant
            canonical(a@),
            canonical(b@),
            canonical(out@),
            i <= a@.len(),
            j <= b@.len(),
            out@.len() > 0 <==> (i > 0 || j > 0),
            out@.len() > 0 && i < a@.len() ==> starts_by(out@.last(), a@[i as int]),
            out@.len() > 0 && j < b@.len() ==> starts_by(out@.last(), b@[j as int]),
            forall|x: int, y: int|
                #![trigger covers(out@, x, y)]
                covers(out@, x, y) == (covers_upto(a@, i as int, x, y) || covers_upto(
                    b@,
                    j as int,
                    x,
                    y,
                )),
        decreases a@.len() - i + b@.len() - j,
    {
        let take_a: bool = if i >= a.len() {
            false
        } else if j >= b.len() {
            true
        } else {
            a[i].y < b[j].y || (a[i].y == b[j].y && a[i].start <= b[j].start)
        };
        if take_a {
            proof {
                lemma_upto_step(a@, i as int);
                if i + 1 < a@.len() {
                    assert(before(a@[i as int], a@[i + 1]));
                }
            }
            push_run(&mut out, a[i]);
            i = i + 1;
        } else {
            proof {
                lemma_upto_step(b@, j as int);
                if j + 1 < b@.len() {
                    assert(before(b@[j as int], b@[j + 1]));
                }
            }
            push_run(&mut out, b[j]);
            j = j + 1;
        }
    }
    out
}

/// The part of `s` that lies beyond column `cur` and outside `b`, appended to `out`.
/// The runs of `b` from `from` on are the only ones that can meet it.
fn push_outside(out: &mut Vec<Span>, s: Span, b: &[Span], from: usize)
    requires
        s.wf(),
        canonical(b@),
        canonical(old(out)@),
        from <= b@.len(),
        old(out)@.len() > 0 ==> before(old(out)@.last(), s),
        forall|k: int| 0 <= k < from ==> !((#[trigger] b@[k]).y == s.y && b@[k].end > s.start),
    ensures
        canonical(final(out)@),
        final(out)@.len() > 0 ==> (final(out)@.last() == old(out)@.last() && old(out)@.len() > 0) || (final(out)@.last().y == s.y
            && final(out)@.last().end <= s.end),
        forall|x: int, y: int|
            #![trigger covers(final(out)@, x, y)]
            covers(final(out)@, x, y) == (covers(old(out)@, x, y) || (s.has(x, y) && !covers(
                b@,
                x,
                y,
            ))),
{
    let ghost start_out = out@;
    let mut cur: u32 = s.start;
    let mut k: usize = from;
    while k < b.len() && (b[k].y < s.y || (b[k].y == s.y && b[k].start < s.end))
        invariant
            s.wf(),
            canonical(b@),
            canonical(out@),
            from <= k <= b@.len(),
            s.start <= cur,
            out@.len() > 0 ==> (out@.last() == start_out.last() && start_out.len() > 0 && before(
                start_out.last(),
                s,
            )) || (out@.last().y == s.y && out@.last().end <= s.end && out@.last().end < cur),
            forall|i: int| 0 <= i < k ==> !((#[trigger] b@[i]).y == s.y && b@[i].end > cur),
            forall|x: int, y: int|
                s.has(x, y) && x < cur ==> (covers(b@, x, y) || covers(out@, x, y)),
            forall|x: int, y: int|
                #![trigger covers(out@, x, y)]
                covers(out@, x, y) == (covers(start_out, x, y) || (s.has(x, y) && x < cur
                    && !covers(b@, x, y))),
        decreases b@.len() - k,
    {
        let ghost prev_out = out@;
        let ghost prev_cur = cur;
        let hole: Span = b[k];
        if hole.y == s.y {
            if hole.start > cur {
                let piece = Span { start: cur, end: hole.start, y: s.y };
                assert forall|x: int, y: int| piece.has(x, y) implies !covers(b@, x, y) by {
                    if covers(b@, x, y) {
                        let i = choose|i: int| 0 <= i < b@.len() && (#[trigger] b@[i]).has(x, y);
                        if i > k {
                            assert(before(b@[k as int], b@[i]));
                        }
                    }
                }
                push_run(out, piece);
            }
            if hole.end > cur {
                cur = hole.end;
            }
            assert forall|x: int, y: int| s.has(x, y) && prev_cur <= x < cur && x >= hole.start implies covers(
                b@,
                x,
                y,
            ) by {
                assert(b@[k as int].has(x, y));
            }
        }
        k = k + 1;
    }
    if cur < s.end {
        let piece = Span { start: cur, end: s.end, y: s.y };
        assert forall|x: int, y: int| piece.has(x, y) implies !covers(b@, x, y) by {
            if covers(b@, x, y) {
                let i = choose|i: int| 0 <= i < b@.len() && (#[trigger] b@[i]).has(x, y);
                if i > k {
                    assert(before(b@[k as int], b@[i]));
                }
            }
        }
        push_run(out, piece);
    }
}

/// The runs of every pixel of `a` that `b` does not hold.
pub(crate) fn subtract_runs(a: &[Span], b: &[Span]) -> (out: Vec<Span>)
    requires
        canonical(a@),
        canonical(b@),
    ensures
        canonical(out@),
        forall|x: int, y: int|
            #![trigger covers(out@, x, y)]
            covers(out@, x, y) == (covers(a@, x, y) && !covers(b@, x, y)),
{
    let mut out: Vec<Span> = Vec::new();
    let mut i: usize = 0;
    let mut j: usize = 0;
    while i < a.len()
        invariant
            canonical(a@),
            canonical(b@),
            canonical(out@),
            i <= a@.len(),
            j <= b@.len(),
            out@.len() > 0 && i < a@.len() ==> before(out@.last(), a@[i as int]),
            forall|k: int, n: int|
                0 <= k < j && i <= n < a@.len() ==> !((#[trigger] b@[k]).y == (
                #[trigger] a@[n]).y && b@[k].end > a@[n].start),
            forall|x: int, y: int|
                #![trigger covers(out@, x, y)]
                covers(out@, x, y) == (covers_upto(a@, i as int, x, y) && !covers(b@, x, y)),
        decreases a@.len() - i,
    {
        let s: Span = a[i];
        while j < b.len() && (b[j].y < s.y || (b[j].y == s.y && b[j].end <= s.start))
            invariant
                canonical(a@),
                canonical(b@),
                i < a@.len(),
                s == a@[i as int],
                j <= b@.len(),
                forall|k: int, n: int|
                    0 <= k < j && i <= n < a@.len() ==> !((#[trigger] b@[k]).y == (
                    #[trigger] a@[n]).y && b@[k].end > a@[n].start),
            decreases b@.len() - j,
        {
            assert forall|n: int| i <= n < a@.len() implies !(b@[j as int].y == (
            #[trigger] a@[n]).y && b@[j as int].end > a@[n].start) by {
                if n > i {
                    assert(before(a@[i as int], a@[n]));
                }
            }
            j = j + 1;
        }
        push_outside(&mut out, s, b, j);
        proof {
            lemma_upto_step(a@, i as int);
            if i + 1 < a@.len() {
                assert(before(a@[i as int], a@[i + 1]));
            }
        }
        i = i + 1;
    }
    out
}

/// A run list holds the pixels of its runs: in the row of a run those from its start on and before
/// its end.
pub proof fn runs_hold_their_pixels(s: Seq<Span>, x: int, y: int)
    ensures
        pixels(s).contains((x, y)) <==> exists|i: int|
            0 <= i < s.len() && (#[trigger] s[i]).y == y && s[i].start <= x && x < s[i].end,
{
    if pixels(s).contains((x, y)) {
        let i = choose|i: int| 0 <= i < s.len() && (#[trigger] s[i]).has(x, y);
        assert(s[i].y == y);
    }
    if exists|i: int|
        0 <= i < s.len() && (#[trigger] s[i]).y == y && s[i].start <= x && x < s[i].end {
        let i = choose|i: int|
            0 <= i < s.len() && (#[trigger] s[i]).y == y && s[i].start <= x && x < s[i].end;
        assert(s[i].has(x, y));
        assert(covers(s, x, y));
    }
}

/// The runs of a canonical list are not empty and come row by row, from left to right; between two
/// runs of one row is at least one pixel that neither has.
pub proof fn canonical_runs_are_apart(s: Seq<Span>, i: int, j: int)
    requires
        canonical(s),
        0 <= i < j < s.len(),
    ensures
        s[i].start < s[i].end,
        s[j].start < s[j].end,
        s[i].y <= s[j].y,
        s[i].y == s[j].y ==> s[i].end < s[j].start,
{
    assert(s[i].wf() && s[j].wf());
    assert(before(s[i], s[j]));
}

} // verus!
