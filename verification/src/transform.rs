//! Moving a region by whole pixels.
use crate::ranges::{Roi, SortedRanges};
use crate::span::{canonical, covers, covers_upto, lemma_pixels_ext, lemma_upto_step, push_run, Span};
use vstd::prelude::*;

verus! {

/// The region moved by whole pixels.
pub open spec fn moved(region: Set<(int, int)>, dx: int, dy: int) -> Set<(int, int)> {
    Set::new(|p: (int, int)| region.contains((p.0 - dx, p.1 - dy)))
}

/// Moving twice is moving once, by both together.
pub proof fn moves_compose(
    region: Set<(int, int)>,
    dx: int,
    dy: int,
    ex: int,
    ey: int,
)
    ensures
        moved(moved(region, dx, dy), ex, ey) == moved(region, dx + ex, dy + ey),
{
    assert forall|p: (int, int)|
        moved(moved(region, dx, dy), ex, ey).contains(p) == moved(
            region,
            dx + ex,
            dy + ey,
        ).contains(p) by {
        assert(p.0 - ex - dx == p.0 - (dx + ex));
        assert(p.1 - ey - dy == p.1 - (dy + ey));
    }
    assert(moved(moved(region, dx, dy), ex, ey) =~= moved(region, dx + ex, dy + ey));
}

/// Not moving a region that is in the image leaves it as it is.
pub proof fn no_move_is_identity(region: Set<(int, int)>, image: Roi)
    requires
        region.subset_of(image.area()),
    ensures
        moved(region, 0, 0).intersect(image.area()) == region,
{
    assert(moved(region, 0, 0).intersect(image.area()) =~= region);
}

/// A region that is moved and stays in the image is moved back whole.
pub proof fn move_and_back(region: Set<(int, int)>, dx: int, dy: int, image: Roi)
    requires
        region.subset_of(image.area()),
        moved(region, dx, dy).subset_of(image.area()),
    ensures
        moved(moved(region, dx, dy).intersect(image.area()), -dx, -dy).intersect(image.area())
            == region,
{
    let there = moved(region, dx, dy).intersect(image.area());
    assert(there =~= moved(region, dx, dy));
    moves_compose(region, dx, dy, -dx, -dy);
    no_move_is_identity(region, image);
}

/// Moves `original` by whole pixels, clipped to the image. `None` if nothing remains visible.
pub fn move_layer(original: &SortedRanges, dx: i64, dy: i64, image: &Roi) -> (region: Option<
    SortedRanges,
>)
    requires
        image.wf(),
        -u32::MAX <= dx <= u32::MAX,
        -u32::MAX <= dy <= u32::MAX,
    ensures
        region is Some <==> moved(original@, dx as int, dy as int).intersect(image.area()) != Set::<
            (int, int),
        >::empty(),
        region matches Some(r) ==> r@ == moved(original@, dx as int, dy as int).intersect(
            image.area(),
        ),
{
    let runs = original.spans();
    let ghost target = moved(original@, dx as int, dy as int).intersect(image.area());
    let mut out: Vec<Span> = Vec::new();
    let mut i: usize = 0;
    while i < runs.len()
        invariant
            i <= runs@.len(),
            canonical(runs@),
            canonical(out@),
            image.wf(),
            -u32::MAX <= dx <= u32::MAX,
            -u32::MAX <= dy <= u32::MAX,
            out@.len() > 0 ==> i > 0 && (out@.last().y < runs@[i - 1].y + dy || (out@.last().y
                == runs@[i - 1].y + dy && out@.last().end <= runs@[i - 1].end + dx)),
            forall|x: int, y: int|
                #![trigger covers(out@, x, y)]
                covers(out@, x, y) == (covers_upto(runs@, i as int, x - dx, y - dy) && image.has(
                    x,
                    y,
                )),
        decreases runs@.len() - i,
    {
        let run: Span = runs[i];
        proof {
            lemma_upto_step(runs@, i as int);
            assert(runs@[i as int].wf());
            if i > 0 {
                assert(crate::span::before(runs@[i - 1], runs@[i as int]));
            }
        }
        let y: i64 = run.y as i64 + dy;
        let left: i64 = run.start as i64 + dx;
        let right: i64 = run.end as i64 + dx;
        let start: i64 = if left > image.x_start as i64 { left } else { image.x_start as i64 };
        let end: i64 = if right < image.x_end as i64 { right } else { image.x_end as i64 };
        let ghost was = out@;
        if y >= image.y_start as i64 && y < image.y_end as i64 && start < end {
            let clipped = Span { start: start as u32, end: end as u32, y: y as u32 };
            push_run(&mut out, clipped);
            proof {
                assert(was.len() > 0 ==> crate::span::before(was.last(), clipped));
                assert(out@.last() == clipped);
                assert forall|a: int, b: int| #![trigger covers(out@, a, b)]
                    covers(out@, a, b) == (covers_upto(runs@, i + 1, a - dx, b - dy) && image.has(
                        a,
                        b,
                    )) by {
                    assert(covers(was, a, b) == (covers_upto(runs@, i as int, a - dx, b - dy)
                        && image.has(a, b)));
                    assert(run.has(a - dx, b - dy) == (b == y && left <= a < right));
                }
            }
        } else {
            proof {
                assert forall|a: int, b: int| #![trigger covers(out@, a, b)]
                    covers(out@, a, b) == (covers_upto(runs@, i + 1, a - dx, b - dy) && image.has(
                        a,
                        b,
                    )) by {
                    assert(covers(was, a, b) == (covers_upto(runs@, i as int, a - dx, b - dy)
                        && image.has(a, b)));
                    assert(run.has(a - dx, b - dy) == (b == y && left <= a < right));
                }
            }
        }
        i += 1;
    }
    proof {
        assert forall|x: int, y: int| #![trigger covers(out@, x, y)]
            covers(out@, x, y) == target.contains((x, y)) by {
            assert(original@.contains((x - dx, y - dy)) == covers(runs@, x - dx, y - dy));
        }
        lemma_pixels_ext(out@, target);
        if out@.len() > 0 {
            let s = out@[0];
            assert(s.has(s.start as int, s.y as int));
            assert(covers(out@, s.start as int, s.y as int));
            assert(target.contains((s.start as int, s.y as int)));
        } else {
            crate::ranges::lemma_empty_runs(out@);
        }
    }
    SortedRanges::from_runs(out)
}

/// A pixel is in the moved region where the pixel it comes from is in the region, and moving by
/// nothing moves nothing.
pub proof fn moved_pixels(region: Set<(int, int)>, dx: int, dy: int, x: int, y: int)
    ensures
        moved(region, dx, dy).contains((x + dx, y + dy)) <==> region.contains((x, y)),
        moved(region, 0, 0) == region,
{
    assert(moved(region, 0, 0) =~= region);
}

} // verus!
