//! The 8-connected pieces of a pixel region.
use crate::ranges::SortedRanges;
use crate::span::{before, canonical, covers, lemma_pixels_ext, pixels, push_run, Span};
use vstd::prelude::*;

verus! {

/// The pixels are the same or touch, diagonally or along an edge.
pub open spec fn adjacent(p: (int, int), q: (int, int)) -> bool {
    -1 <= p.0 - q.0 <= 1 && -1 <= p.1 - q.1 <= 1
}

/// A walk inside the region, from touching pixel to touching pixel.
pub open spec fn is_walk(region: Set<(int, int)>, walk: Seq<(int, int)>) -> bool {
    &&& walk.len() > 0
    &&& forall|i: int| 0 <= i < walk.len() ==> region.contains(#[trigger] walk[i])
    &&& forall|i: int, j: int| 0 <= i && j == i + 1 && j < walk.len() ==> adjacent(#[trigger] walk[i], #[trigger] walk[j])
}

/// A walk inside the region leads from `p` to `q`.
pub open spec fn connected(region: Set<(int, int)>, p: (int, int), q: (int, int)) -> bool {
    exists|walk: Seq<(int, int)>| #[trigger] is_walk(region, walk) && walk[0] == p && walk.last() == q
}

/// The 8-connected component of the pixel `p`; empty where the region does not hold `p`.
pub open spec fn cluster(region: Set<(int, int)>, p: (int, int)) -> Set<(int, int)> {
    Set::new(|q: (int, int)| connected(region, p, q))
}

/// Every pixel of a cluster has that same cluster.
pub proof fn cluster_is_shared(region: Set<(int, int)>, p: (int, int), q: (int, int))
    requires
        cluster(region, p).contains(q),
    ensures
        cluster(region, q) == cluster(region, p),
{
    lemma_connected_symmetric(region, p, q);
    assert forall|r: (int, int)| cluster(region, q).contains(r) == cluster(region, p).contains(r) by {
        if connected(region, q, r) {
            lemma_connected_transitive(region, p, q, r);
        }
        if connected(region, p, r) {
            lemma_connected_transitive(region, q, p, r);
        }
    }
    assert(cluster(region, q) =~= cluster(region, p));
}

/// A cluster is a part of its region, and where the region holds the pixel, the cluster does.
pub proof fn cluster_in_region(region: Set<(int, int)>, p: (int, int))
    ensures
        cluster(region, p).subset_of(region),
        region.contains(p) ==> cluster(region, p).contains(p),
{
    assert forall|q: (int, int)| cluster(region, p).contains(q) implies region.contains(q) by {
        let walk = choose|walk: Seq<(int, int)>| #[trigger] is_walk(region, walk) && walk[0] == p
            && walk.last() == q;
        assert(region.contains(walk[walk.len() - 1]));
    }
    if region.contains(p) {
        let walk = seq![p];
        assert(is_walk(region, walk) && walk[0] == p && walk.last() == p);
    }
}

proof fn lemma_connected_transitive(region: Set<(int, int)>, p: (int, int), q: (int, int), r: (int, int))
    requires
        connected(region, p, q),
        connected(region, q, r),
    ensures
        connected(region, p, r),
{
    let a = choose|walk: Seq<(int, int)>| #[trigger] is_walk(region, walk) && walk[0] == p && walk.last() == q;
    let b = choose|walk: Seq<(int, int)>| #[trigger] is_walk(region, walk) && walk[0] == q && walk.last() == r;
    let both = a + b;
    assert forall|i: int| 0 <= i < both.len() implies region.contains(#[trigger] both[i]) by {
        if i < a.len() {
            assert(both[i] == a[i]);
        } else {
            assert(both[i] == b[i - a.len()]);
        }
    }
    assert forall|i: int, j: int| 0 <= i && j == i + 1 && j < both.len() implies adjacent(
        #[trigger] both[i],
        #[trigger] both[j],
    ) by {
        if j < a.len() {
            assert(adjacent(a[i], a[j]));
        } else if i >= a.len() {
            assert(adjacent(b[i - a.len()], b[j - a.len()]));
        }
    }
    assert(is_walk(region, both));
    assert(both.last() == b.last());
}

proof fn lemma_connected_symmetric(region: Set<(int, int)>, p: (int, int), q: (int, int))
    requires
        connected(region, p, q),
    ensures
        connected(region, q, p),
{
    let a = choose|walk: Seq<(int, int)>| #[trigger] is_walk(region, walk) && walk[0] == p && walk.last() == q;
    let back = a.reverse();
    let n = a.len() as int;
    assert forall|i: int| 0 <= i < back.len() implies region.contains(#[trigger] back[i]) by {
        assert(back[i] == a[n - 1 - i]);
    }
    assert forall|i: int, j: int| 0 <= i && j == i + 1 && j < back.len() implies adjacent(
        #[trigger] back[i],
        #[trigger] back[j],
    ) by {
        assert(adjacent(a[n - 1 - j], a[n - 1 - i]));
    }
    assert(is_walk(region, back));
}

proof fn lemma_connected_self(region: Set<(int, int)>, p: (int, int))
    requires
        region.contains(p),
    ensures
        connected(region, p, p),
{
    assert(is_walk(region, seq![p]));
}

proof fn lemma_connected_step(region: Set<(int, int)>, p: (int, int), q: (int, int), r: (int, int))
    requires
        connected(region, p, q),
        adjacent(q, r),
        region.contains(r),
    ensures
        connected(region, p, r),
{
    let a = choose|walk: Seq<(int, int)>| #[trigger] is_walk(region, walk) && walk[0] == p && walk.last() == q;
    let b = a.push(r);
    assert forall|i: int, j: int| 0 <= i && j == i + 1 && j < b.len() implies adjacent(
        #[trigger] b[i],
        #[trigger] b[j],
    ) by {
        if j < a.len() {
            assert(adjacent(a[i], a[j]));
        }
    }
    assert(is_walk(region, b));
    assert(b.last() == r);
}

proof fn lemma_along_run(region: Set<(int, int)>, p: (int, int), s: Span, x0: int, x1: int)
    requires
        forall|x: int| s.start <= x < s.end ==> region.contains((x, s.y as int)),
        s.start <= x0 < s.end,
        s.start <= x1 < s.end,
        connected(region, p, (x0, s.y as int)),
    ensures
        connected(region, p, (x1, s.y as int)),
    decreases (if x0 <= x1 { x1 - x0 } else { x0 - x1 }),
{
    if x0 < x1 {
        lemma_along_run(region, p, s, x0, x1 - 1);
        lemma_connected_step(region, p, (x1 - 1, s.y as int), (x1, s.y as int));
    } else if x0 > x1 {
        lemma_along_run(region, p, s, x0, x1 + 1);
        lemma_connected_step(region, p, (x1 + 1, s.y as int), (x1, s.y as int));
    }
}

/// The runs hold a pair of touching pixels.
pub open spec fn touching(a: Span, b: Span) -> bool {
    -1 <= a.y - b.y <= 1 && a.start <= b.end && b.start <= a.end
}

/// Every pixel of the run is connected to `p`.
spec fn reached(region: Set<(int, int)>, p: (int, int), s: Span) -> bool {
    forall|x: int| s.start <= x < s.end ==> #[trigger] connected(region, p, (x, s.y as int))
}

proof fn lemma_run_in_region(runs: Seq<Span>, i: int)
    requires
        0 <= i < runs.len(),
    ensures
        forall|x: int| runs[i].start <= x < runs[i].end ==> pixels(runs).contains((x, runs[i].y as int)),
{
    assert forall|x: int| runs[i].start <= x < runs[i].end implies pixels(runs).contains(
        (x, runs[i].y as int),
    ) by {
        assert(runs[i].has(x, runs[i].y as int));
        assert(covers(runs, x, runs[i].y as int));
    }
}

proof fn lemma_reach_touching(runs: Seq<Span>, p: (int, int), i: int, j: int)
    requires
        0 <= i < runs.len(),
        0 <= j < runs.len(),
        runs[i].wf(),
        runs[j].wf(),
        touching(runs[i], runs[j]),
        reached(pixels(runs), p, runs[i]),
    ensures
        reached(pixels(runs), p, runs[j]),
{
    let region = pixels(runs);
    let a = runs[i];
    let b = runs[j];
    lemma_run_in_region(runs, j);
    let lo = if a.start > b.start { a.start as int } else { b.start as int };
    let hi = if a.end < b.end { a.end as int } else { b.end as int };
    let xa = if lo < hi { lo } else if b.start == a.end { a.end - 1 } else { a.start as int };
    let xb = if lo < hi { lo } else if b.start == a.end { b.start as int } else { b.end - 1 };
    assert(connected(region, p, (xa, a.y as int)));
    lemma_connected_step(region, p, (xa, a.y as int), (xb, b.y as int));
    assert forall|x: int| b.start <= x < b.end implies #[trigger] connected(
        region,
        p,
        (x, b.y as int),
    ) by {
        lemma_along_run(region, p, b, xb, x);
    }
}

/// How many flags are still down.
spec fn unmarked(flags: Seq<bool>) -> nat
    decreases flags.len(),
{
    if flags.len() == 0 {
        0
    } else {
        unmarked(flags.drop_last()) + if flags.last() {
            0nat
        } else {
            1nat
        }
    }
}

proof fn lemma_mark_one(flags: Seq<bool>, j: int)
    requires
        0 <= j < flags.len(),
        !flags[j],
    ensures
        unmarked(flags.update(j, true)) == unmarked(flags) - 1,
    decreases flags.len(),
{
    let up = flags.update(j, true);
    if j == flags.len() - 1 {
        assert(up.drop_last() =~= flags.drop_last());
    } else {
        lemma_mark_one(flags.drop_last(), j);
        assert(up.drop_last() =~= flags.drop_last().update(j, true));
    }
}

/// Marked runs outside the worklist have all their touching runs marked.
spec fn settled(runs: Seq<Span>, marked: Seq<bool>, i: int) -> bool {
    forall|j: int| 0 <= j < runs.len() && touching(runs[i], #[trigger] runs[j]) ==> marked[j]
}

proof fn lemma_walk_marked(runs: Seq<Span>, marked: Seq<bool>, walk: Seq<(int, int)>, n: int)
    requires
        canonical(runs),
        marked.len() == runs.len(),
        is_walk(pixels(runs), walk),
        0 <= n < walk.len(),
        forall|i: int| 0 <= i < runs.len() && #[trigger] marked[i] ==> settled(runs, marked, i),
        exists|i: int| 0 <= i < runs.len() && #[trigger] marked[i] && runs[i].has(walk[0].0, walk[0].1),
    ensures
        exists|i: int| 0 <= i < runs.len() && #[trigger] marked[i] && runs[i].has(walk[n].0, walk[n].1),
    decreases n,
{
    if n > 0 {
        lemma_walk_marked(runs, marked, walk, n - 1);
        let i = choose|i: int|
            0 <= i < runs.len() && #[trigger] marked[i] && runs[i].has(walk[n - 1].0, walk[n - 1].1);
        assert(pixels(runs).contains(walk[n]));
        assert(covers(runs, walk[n].0, walk[n].1));
        let j = choose|j: int| 0 <= j < runs.len() && (#[trigger] runs[j]).has(walk[n].0, walk[n].1);
        assert(adjacent(walk[n - 1], walk[n]));
        assert(touching(runs[i], runs[j]));
        assert(settled(runs, marked, i));
        assert(marked[j]);
    }
}

/// The runs that belong to the cluster of the pixel `(x, y)` inside run `seed`.
fn mark_cluster(runs: &[Span], seed: usize, x: u32, y: u32) -> (marked: Vec<bool>)
    requires
        canonical(runs@),
        seed < runs@.len(),
        runs@[seed as int].has(x as int, y as int),
    ensures
        marked@.len() == runs@.len(),
        forall|i: int|
            0 <= i < runs@.len() && #[trigger] marked@[i] ==> reached(
                pixels(runs@),
                (x as int, y as int),
                runs@[i],
            ),
        forall|i: int| 0 <= i < runs@.len() && #[trigger] marked@[i] ==> settled(runs@, marked@, i),
        marked@[seed as int],
{
    let ghost p = (x as int, y as int);
    let ghost region = pixels(runs@);
    let n: usize = runs.len();
    let mut marked: Vec<bool> = Vec::new();
    while marked.len() < n
        invariant
            marked@.len() <= n,
            forall|i: int| 0 <= i < marked@.len() ==> !#[trigger] marked@[i],
        decreases n - marked@.len(),
    {
        marked.push(false);
    }
    marked.set(seed, true);
    let mut work: Vec<usize> = Vec::new();
    work.push(seed);
    proof {
        lemma_run_in_region(runs@, seed as int);
        lemma_connected_self(region, p);
        assert forall|px: int| runs@[seed as int].start <= px < runs@[seed as int].end implies #[trigger] connected(
            region,
            p,
            (px, runs@[seed as int].y as int),
        ) by {
            lemma_along_run(region, p, runs@[seed as int], x as int, px);
        }
        assert(work@[0] == seed);
    }
    while work.len() > 0
        invariant
            n == runs@.len(),
            seed < n,
            canonical(runs@),
            region == pixels(runs@),
            marked@.len() == n,
            marked@[seed as int],
            forall|k: int| 0 <= k < work@.len() ==> (#[trigger] work@[k]) < n && marked@[work@[k] as int],
            forall|i: int| 0 <= i < n && #[trigger] marked@[i] ==> reached(region, p, runs@[i]),
            forall|i: int|
                0 <= i < n && #[trigger] marked@[i] && !work@.contains(i as usize) ==> settled(
                    runs@,
                    marked@,
                    i,
                ),
        decreases 2 * unmarked(marked@) + work@.len(),
    {
        let ghost work0 = work@;
        let ghost measure = 2 * unmarked(marked@) + work@.len();
        let i: usize = work.pop().unwrap();
        assert(i == work0[work0.len() - 1]);
        assert forall|k: int| 0 <= k < n && #[trigger] marked@[k] && !work@.contains(k as usize) && k != i implies settled(
            runs@,
            marked@,
            k,
        ) by {
            if work0.contains(k as usize) {
                let m = choose|m: int| 0 <= m < work0.len() && work0[m] == k as usize;
                assert(work@[m] == k as usize);
            }
        }
        let mut j: usize = 0;
        while j < n
            invariant
                n == runs@.len(),
                seed < n,
                i < n,
                j <= n,
                canonical(runs@),
                region == pixels(runs@),
                marked@.len() == n,
                marked@[seed as int],
                marked@[i as int],
                forall|k: int|
                    0 <= k < work@.len() ==> (#[trigger] work@[k]) < n && marked@[work@[k] as int],
                forall|k: int| 0 <= k < n && #[trigger] marked@[k] ==> reached(region, p, runs@[k]),
                forall|k: int|
                    0 <= k < n && #[trigger] marked@[k] && !work@.contains(k as usize) && k != i
                        ==> settled(runs@, marked@, k),
                forall|k: int| 0 <= k < j && touching(runs@[i as int], #[trigger] runs@[k]) ==> marked@[k],
                2 * unmarked(marked@) + work@.len() < measure,
            decreases n - j,
        {
            let near: bool = runs[i].y <= runs[j].y + 1 && runs[j].y <= runs[i].y + 1 && runs[i].start
                <= runs[j].end && runs[j].start <= runs[i].end;
            assert(near == touching(runs@[i as int], runs@[j as int]));
            if near && !marked[j] {
                let ghost marked0 = marked@;
                let ghost work1 = work@;
                proof {
                    lemma_mark_one(marked@, j as int);
                    lemma_reach_touching(runs@, p, i as int, j as int);
                }
                marked.set(j, true);
                work.push(j);
                assert forall|k: int|
                    0 <= k < n && #[trigger] marked@[k] && !work@.contains(k as usize) && k != i implies settled(
                    runs@,
                    marked@,
                    k,
                ) by {
                    assert(work@[work1.len() as int] == j);
                    assert(k != j);
                    assert(marked0[k]);
                    if work1.contains(k as usize) {
                        let m = choose|m: int| 0 <= m < work1.len() && work1[m] == k as usize;
                        assert(work@[m] == k as usize);
                    }
                    assert(settled(runs@, marked0, k));
                }
            }
            j = j + 1;
        }
        assert(settled(runs@, marked@, i as int));
    }
    marked
}

/// The 8-connected cluster of `ranges` that holds the pixel `(x, y)`; `None` where no run
/// covers the pixel.
pub fn cluster_at(ranges: &SortedRanges, x: u32, y: u32) -> (found: Option<SortedRanges>)
    ensures
        found is Some <==> ranges@.contains((x as int, y as int)),
        found matches Some(r) ==> r.wf() && r@ == cluster(ranges@, (x as int, y as int)),
{
    let runs = ranges.spans();
    let ghost p = (x as int, y as int);
    let n: usize = runs.len();
    let mut seed: usize = 0;
    while seed < n && !(runs[seed].y == y && runs[seed].start <= x && x < runs[seed].end)
        invariant
            n == runs@.len(),
            seed <= n,
            forall|k: int| 0 <= k < seed ==> !(#[trigger] runs@[k]).has(x as int, y as int),
        decreases n - seed,
    {
        seed = seed + 1;
    }
    if seed >= n {
        assert(!covers(runs@, x as int, y as int));
        return None;
    }
    assert(runs@[seed as int].has(x as int, y as int));
    assert(covers(runs@, x as int, y as int));
    let marked = mark_cluster(runs, seed, x, y);
    let mut out: Vec<Span> = Vec::new();
    let mut i: usize = 0;
    while i < n
        invariant
            n == runs@.len(),
            i <= n,
            canonical(runs@),
            marked@.len() == n,
            canonical(out@),
            out@.len() > 0 && i < n ==> before(out@.last(), runs@[i as int]),
            forall|px: int, py: int|
                #![trigger covers(out@, px, py)]
                covers(out@, px, py) == exists|k: int|
                    0 <= k < i && #[trigger] marked@[k] && runs@[k].has(px, py),
        decreases n - i,
    {
        let ghost out0 = out@;
        proof {
            if i + 1 < n {
                assert(before(runs@[i as int], runs@[i + 1]));
            }
        }
        if marked[i] {
            push_run(&mut out, runs[i]);
            assert(out@ == out0.push(runs@[i as int]));
        }
        assert forall|px: int, py: int| #![trigger covers(out@, px, py)]
            covers(out@, px, py) == exists|k: int|
                0 <= k < i + 1 && #[trigger] marked@[k] && runs@[k].has(px, py) by {
            assert(covers(out@, px, py) == (covers(out0, px, py) || (marked@[i as int]
                && runs@[i as int].has(px, py))));
        }
        i = i + 1;
    }
    proof {
        let region = ranges@;
        assert forall|px: int, py: int| #![trigger covers(out@, px, py)]
            covers(out@, px, py) == cluster(region, p).contains((px, py)) by {
            if covers(out@, px, py) {
                let k = choose|k: int| 0 <= k < n && #[trigger] marked@[k] && runs@[k].has(px, py);
                assert(reached(region, p, runs@[k]));
                assert(connected(region, p, (px, runs@[k].y as int)));
            }
            if connected(region, p, (px, py)) {
                let walk = choose|walk: Seq<(int, int)>| #[trigger]
                    is_walk(region, walk) && walk[0] == p && walk.last() == (px, py);
                assert(marked@[seed as int]);
                lemma_walk_marked(runs@, marked@, walk, walk.len() - 1);
            }
        }
        lemma_pixels_ext(out@, cluster(region, p));
        assert(marked@[seed as int] && runs@[seed as int].has(p.0, p.1));
        assert(covers(out@, p.0, p.1));
    }
    SortedRanges::from_runs(out)
}

/// The cluster of a pixel is the smallest part of the region that holds the pixel and, with each of
/// its pixels, all pixels of the region that touch it: above, below, beside or diagonally. It is empty
/// where the region does not hold the pixel.
pub proof fn cluster_is_closed_and_smallest(
    region: Set<(int, int)>,
    p: (int, int),
    closed: Set<(int, int)>,
)
    ensures
        region.contains(p) <==> cluster(region, p).contains(p),
        !region.contains(p) ==> cluster(region, p) == Set::<(int, int)>::empty(),
        forall|x: int, y: int, a: int, b: int|
            #![trigger cluster(region, p).contains((x, y)), region.contains((a, b))]
            cluster(region, p).contains((x, y)) && region.contains((a, b)) && x - 1 <= a <= x + 1 && y
                - 1 <= b <= y + 1 ==> cluster(region, p).contains((a, b)),
        closed.contains(p) && (forall|x: int, y: int, a: int, b: int|
            #![trigger closed.contains((x, y)), region.contains((a, b))]
            closed.contains((x, y)) && region.contains((a, b)) && x - 1 <= a <= x + 1 && y - 1 <= b
                <= y + 1 ==> closed.contains((a, b))) ==> cluster(region, p).subset_of(closed),
        cluster(region, p).subset_of(region),
{
    cluster_in_region(region, p);
    assert forall|q: (int, int)| cluster(region, p).contains(q) implies region.contains(p) by {
        let walk = choose|walk: Seq<(int, int)>| #[trigger] is_walk(region, walk) && walk[0] == p
            && walk.last() == q;
        assert(region.contains(walk[0]));
    }
    if !region.contains(p) {
        assert(cluster(region, p) =~= Set::empty());
    }
    assert forall|x: int, y: int, a: int, b: int|
        #![trigger cluster(region, p).contains((x, y)), region.contains((a, b))]
        cluster(region, p).contains((x, y)) && region.contains((a, b)) && x - 1 <= a <= x + 1 && y - 1
            <= b <= y + 1 implies cluster(region, p).contains((a, b)) by {
        let walk = choose|walk: Seq<(int, int)>| #[trigger] is_walk(region, walk) && walk[0] == p
            && walk.last() == (x, y);
        let longer = walk.push((a, b));
        assert forall|i: int| 0 <= i < longer.len() implies region.contains(#[trigger] longer[i]) by {
            if i < walk.len() {
                assert(region.contains(walk[i]));
            }
        }
        assert forall|i: int, j: int|
            0 <= i && j == i + 1 && j < longer.len() implies adjacent(
            #[trigger] longer[i],
            #[trigger] longer[j],
        ) by {
            if j < walk.len() {
                assert(adjacent(walk[i], walk[j]));
            }
        }
        assert(is_walk(region, longer) && longer[0] == p && longer.last() == (a, b));
    }
    if closed.contains(p) && (forall|x: int, y: int, a: int, b: int|
        #![trigger closed.contains((x, y)), region.contains((a, b))]
        closed.contains((x, y)) && region.contains((a, b)) && x - 1 <= a <= x + 1 && y - 1 <= b <= y
            + 1 ==> closed.contains((a, b))) {
        assert forall|q: (int, int)| cluster(region, p).contains(q) implies closed.contains(q) by {
            let walk = choose|walk: Seq<(int, int)>| #[trigger] is_walk(region, walk) && walk[0]
                == p && walk.last() == q;
            lemma_walk_stays(region, walk, closed, walk.len() - 1);
        }
    }
}

proof fn lemma_walk_stays(
    region: Set<(int, int)>,
    walk: Seq<(int, int)>,
    closed: Set<(int, int)>,
    i: int,
)
    requires
        is_walk(region, walk),
        0 <= i < walk.len(),
        closed.contains(walk[0]),
        forall|x: int, y: int, a: int, b: int|
            #![trigger closed.contains((x, y)), region.contains((a, b))]
            closed.contains((x, y)) && region.contains((a, b)) && x - 1 <= a <= x + 1 && y - 1 <= b
                <= y + 1 ==> closed.contains((a, b)),
    ensures
        closed.contains(walk[i]),
    decreases i,
{
    if i > 0 {
        lemma_walk_stays(region, walk, closed, i - 1);
        assert(adjacent(walk[i - 1], walk[i]));
        let (x, y) = walk[i - 1];
        let (a, b) = walk[i];
        assert(closed.contains((x, y)) && region.contains((a, b)));
    }
}

} // verus!
