//! The runs of several layers, merged into one top-to-bottom, left-to-right sequence.
use crate::affected_layer::AffectedLayer;
use crate::layer_stack::{
    entry_model, entry_models, filled_entries, filled_layers, is_filled, PixelAreaStack,
};
use crate::pixel_area::{LayerModel, PixelArea};
use crate::render::{lemma_runs_of, runs_of};
use crate::span::{before, canonical, covers, pixels, starts_by, Span};
use vstd::prelude::*;

verus! {

/// The runs that the sequence has of one layer.
pub open spec fn of_layer(spans: Seq<(usize, Span)>, layer: int) -> Seq<Span>
    decreases spans.len(),
{
    if spans.len() == 0 {
        Seq::empty()
    } else {
        let earlier = of_layer(spans.drop_last(), layer);
        if spans.last().0 == layer {
            earlier.push(spans.last().1)
        } else {
            earlier
        }
    }
}

/// Whether the runs come from top to bottom, and from left to right in each row.
pub open spec fn in_order(spans: Seq<(usize, Span)>) -> bool {
    forall|j: int, k: int| 0 <= j < k < spans.len() ==> starts_by(spans[j].1, spans[k].1)
}

/// Whether the sequence holds all runs of all layers, and nothing else, in order. Runs of two
/// layers that start at one pixel may come in either order.
pub open spec fn merged(spans: Seq<(usize, Span)>, stack: Seq<LayerModel>) -> bool {
    &&& in_order(spans)
    &&& forall|k: int|
        0 <= k < spans.len() ==> (#[trigger] spans[k]).0 < stack.len() && is_filled(
            stack[spans[k].0 as int],
        )
    &&& forall|i: int|
        0 <= i < stack.len() && is_filled(#[trigger] stack[i]) ==> of_layer(spans, i) == runs_of(
            stack[i].pixels,
        )
}

/// The pixels that some layer has.
pub open spec fn all_pixels(stack: Seq<LayerModel>) -> Set<(int, int)> {
    Set::new(|p: (int, int)| exists|i: int| 0 <= i < stack.len() && (#[trigger] stack[i]).pixels.contains(p))
}

/// The runs without their layers.
pub open spec fn bare(spans: Seq<(usize, Span)>) -> Seq<Span> {
    spans.map_values(|e: (usize, Span)| e.1)
}

/// Whether the sequence has the run of the layer.
spec fn has_run(spans: Seq<(usize, Span)>, layer: int, run: Span) -> bool {
    exists|k: int| 0 <= k < spans.len() && (#[trigger] spans[k]).0 == layer && spans[k].1 == run
}

proof fn lemma_of_layer(spans: Seq<(usize, Span)>, layer: int)
    ensures
        forall|k: int|
            0 <= k < spans.len() && (#[trigger] spans[k]).0 == layer ==> of_layer(
                spans,
                layer,
            ).contains(spans[k].1),
        forall|m: int|
            #![trigger of_layer(spans, layer)[m]]
            0 <= m < of_layer(spans, layer).len() ==> has_run(
                spans,
                layer,
                of_layer(spans, layer)[m],
            ),
    decreases spans.len(),
{
    if spans.len() > 0 {
        let earlier = spans.drop_last();
        lemma_of_layer(earlier, layer);
        let part = of_layer(spans, layer);
        let part_earlier = of_layer(earlier, layer);
        assert forall|k: int| 0 <= k < spans.len() && (#[trigger] spans[k]).0
            == layer implies part.contains(spans[k].1) by {
            if k < spans.len() - 1 {
                assert(earlier[k] == spans[k]);
                let m = part_earlier.index_of(spans[k].1);
                assert(part[m] == spans[k].1);
            } else {
                assert(part[part.len() - 1] == spans[k].1);
            }
        }
        assert forall|m: int| #![trigger part[m]] 0 <= m < part.len() implies has_run(
            spans,
            layer,
            part[m],
        ) by {
            if m < part_earlier.len() {
                assert(part_earlier[m] == part[m]);
                let k = choose|k: int|
                    0 <= k < earlier.len() && (#[trigger] earlier[k]).0 == layer && earlier[k].1
                        == part_earlier[m];
                assert(spans[k] == earlier[k]);
            } else {
                assert(spans[spans.len() - 1].1 == part[m]);
            }
        }
    }
}

/// The merged runs cover what the layers cover.
proof fn lemma_merged_pixels(spans: Seq<(usize, Span)>, stack: Seq<LayerModel>)
    requires
        merged(spans, stack),
        forall|i: int|
            0 <= i < stack.len() && is_filled(#[trigger] stack[i]) ==> pixels(
                runs_of(stack[i].pixels),
            ) == stack[i].pixels,
    ensures
        pixels(bare(spans)) == all_pixels(stack),
{
    let all = bare(spans);
    assert forall|x: int, y: int| #![trigger covers(all, x, y)]
        covers(all, x, y) == all_pixels(stack).contains((x, y)) by {
        if covers(all, x, y) {
            let k = choose|k: int| 0 <= k < all.len() && (#[trigger] all[k]).has(x, y);
            let i = spans[k].0 as int;
            lemma_of_layer(spans, i);
            let runs = runs_of(stack[i].pixels);
            assert(runs.contains(spans[k].1));
            let m = runs.index_of(spans[k].1);
            assert(runs[m].has(x, y));
            assert(covers(runs, x, y));
            assert(pixels(runs).contains((x, y)));
            assert(stack[i].pixels.contains((x, y)));
        }
        if all_pixels(stack).contains((x, y)) {
            let i = choose|i: int|
                0 <= i < stack.len() && (#[trigger] stack[i]).pixels.contains((x, y));
            assert(is_filled(stack[i]));
            let runs = runs_of(stack[i].pixels);
            assert(pixels(runs).contains((x, y)));
            let m = choose|m: int| 0 <= m < runs.len() && (#[trigger] runs[m]).has(x, y);
            lemma_of_layer(spans, i);
            assert(of_layer(spans, i)[m].has(x, y));
            assert(has_run(spans, i, of_layer(spans, i)[m]));
            let k = choose|k: int|
                0 <= k < spans.len() && (#[trigger] spans[k]).0 == i && spans[k].1 == of_layer(
                    spans,
                    i,
                )[m];
            assert(all[k].has(x, y));
        }
    }
    crate::span::lemma_pixels_ext(all, all_pixels(stack));
}

/// How many runs of the first `n` areas are not taken yet.
spec fn left(entries: Seq<(usize, &PixelArea)>, taken: Seq<usize>, n: int) -> int
    decreases n,
{
    if n <= 0 {
        0
    } else {
        left(entries, taken, n - 1) + entries[n - 1].1.pixels.run_list().len() - taken[n - 1]
    }
}

proof fn lemma_left_bound(entries: Seq<(usize, &PixelArea)>, taken: Seq<usize>, n: int)
    requires
        0 <= n <= entries.len(),
        taken.len() == entries.len(),
        forall|k: int|
            0 <= k < n ==> #[trigger] taken[k] <= entries[k].1.pixels.run_list().len(),
    ensures
        left(entries, taken, n) >= 0,
    decreases n,
{
    if n > 0 {
        lemma_left_bound(entries, taken, n - 1);
    }
}

proof fn lemma_left(entries: Seq<(usize, &PixelArea)>, taken: Seq<usize>, n: int, at: int)
    requires
        0 <= n <= entries.len(),
        taken.len() == entries.len(),
        0 <= at < taken.len(),
        taken[at] < usize::MAX,
    ensures
        left(entries, taken.update(at, (taken[at] + 1) as usize), n) == left(entries, taken, n)
            - if at < n {
            1int
        } else {
            0
        },
    decreases n,
{
    if n > 0 {
        lemma_left(entries, taken, n - 1, at);
    }
}

/// Of the areas that have a run left, one whose next run comes first.
fn next_area(entries: &Vec<(usize, &PixelArea)>, taken: &Vec<usize>) -> (best: Option<usize>)
    requires
        taken@.len() == entries@.len(),
    ensures
        best is None ==> forall|k: int|
            0 <= k < entries@.len() ==> #[trigger] taken@[k]
                >= entries@[k].1.pixels.run_list().len(),
        best matches Some(b) ==> {
            &&& b < entries@.len()
            &&& taken@[b as int] < entries@[b as int].1.pixels.run_list().len()
            &&& forall|k: int|
                0 <= k < entries@.len() && #[trigger] taken@[k]
                    < entries@[k].1.pixels.run_list().len() ==> starts_by(
                    entries@[b as int].1.pixels.run_list()[taken@[b as int] as int],
                    entries@[k].1.pixels.run_list()[taken@[k] as int],
                )
        },
{
    let mut best: Option<usize> = None;
    let mut k: usize = 0;
    while k < entries.len()
        invariant
            k <= entries@.len(),
            taken@.len() == entries@.len(),
            best is None ==> forall|j: int|
                0 <= j < k ==> #[trigger] taken@[j] >= entries@[j].1.pixels.run_list().len(),
            best matches Some(b) ==> {
                &&& b < entries@.len()
                &&& taken@[b as int] < entries@[b as int].1.pixels.run_list().len()
                &&& forall|j: int|
                    0 <= j < k && #[trigger] taken@[j] < entries@[j].1.pixels.run_list().len()
                        ==> starts_by(
                        entries@[b as int].1.pixels.run_list()[taken@[b as int] as int],
                        entries@[j].1.pixels.run_list()[taken@[j] as int],
                    )
            },
        decreases entries@.len() - k,
    {
        let runs = entries[k].1.pixels.spans();
        let cursor: usize = taken[k];
        if cursor < runs.len() {
            let head: Span = runs[cursor];
            let better: bool = match best {
                None => true,
                Some(b) => {
                    let lead: Span = entries[b].1.pixels.spans()[taken[b]];
                    head.y < lead.y || (head.y == lead.y && head.start < lead.start)
                },
            };
            if better {
                best = Some(k);
            }
        }
        k += 1;
    }
    best
}

/// Merges the runs of all layers.
pub fn ordered_spans(stack: &PixelAreaStack) -> (spans: Vec<(usize, Span)>)
    ensures
        merged(spans@, stack@),
        pixels(bare(spans@)) == all_pixels(stack@),
        forall|k: int| 0 <= k < spans@.len() ==> (#[trigger] spans@[k]).1.wf(),
{
    let entries = stack.iter().collect();
    let ghost filled = filled_layers(stack@, AffectedLayer::Unspecified);
    proof {
        filled_entries(stack@, AffectedLayer::Unspecified, 0, stack@.len() as int);
        assert forall|k: int| 0 <= k < entries@.len() implies entry_model(#[trigger] entries@[k])
            == filled[k] by {
            assert(entry_models(entries@)[k] == filled[k]);
        }
    }
    let mut taken: Vec<usize> = Vec::new();
    let mut i: usize = 0;
    while i < entries.len()
        invariant
            i <= entries@.len(),
            taken@.len() == i,
            forall|k: int| 0 <= k < i ==> #[trigger] taken@[k] == 0,
            forall|k: int|
                0 <= k < i ==> (#[trigger] entries@[k]).1.pixels.wf() && runs_of(
                    entries@[k].1.pixels@,
                ) == entries@[k].1.pixels.run_list(),
        decreases entries@.len() - i,
    {
        let ranges = &entries[i].1.pixels;
        proof {
            use_type_invariant(ranges);
            lemma_runs_of(*ranges);
        }
        taken.push(0);
        i += 1;
    }
    let mut out: Vec<(usize, Span)> = Vec::new();
    loop
        invariant
            entries@.len() == filled.len(),
            taken@.len() == entries@.len(),
            filled == filled_layers(stack@, AffectedLayer::Unspecified),
            forall|k: int|
                0 <= k < entries@.len() ==> (#[trigger] entries@[k]).1.pixels.wf() && runs_of(
                    entries@[k].1.pixels@,
                ) == entries@[k].1.pixels.run_list(),
            forall|k: int| 0 <= k < entries@.len() ==> entry_model(#[trigger] entries@[k]) == filled[k],
            forall|k: int|
                0 <= k < entries@.len() ==> #[trigger] taken@[k]
                    <= entries@[k].1.pixels.run_list().len(),
            forall|k: int|
                0 <= k < entries@.len() ==> of_layer(out@, (#[trigger] entries@[k]).0 as int)
                    == entries@[k].1.pixels.run_list().take(taken@[k] as int),
            in_order(out@),
            forall|m: int| 0 <= m < out@.len() ==> (#[trigger] out@[m]).1.wf(),
            forall|m: int|
                0 <= m < out@.len() ==> (#[trigger] out@[m]).0 < stack@.len() && is_filled(
                    stack@[out@[m].0 as int],
                ),
            forall|k: int|
                0 <= k < entries@.len() && #[trigger] taken@[k]
                    < entries@[k].1.pixels.run_list().len() && out@.len() > 0 ==> starts_by(
                    out@.last().1,
                    entries@[k].1.pixels.run_list()[taken@[k] as int],
                ),
        ensures
            merged(out@, stack@),
            pixels(bare(out@)) == all_pixels(stack@),
            forall|k: int| 0 <= k < out@.len() ==> (#[trigger] out@[k]).1.wf(),
        decreases left(entries@, taken@, entries@.len() as int),
    {
        proof {
            filled_entries(stack@, AffectedLayer::Unspecified, 0, stack@.len() as int);
        }
        match next_area(&entries, &taken) {
            None => {
                proof {
                    assert forall|i: int|
                        0 <= i < stack@.len() && is_filled(#[trigger] stack@[i]) implies of_layer(
                        out@,
                        i,
                    ) == runs_of(stack@[i].pixels) && pixels(runs_of(stack@[i].pixels))
                        == stack@[i].pixels by {
                        let k = filled.index_of((i, stack@[i]));
                        assert(filled[k] == (i, stack@[i]));
                        assert(entry_model(entries@[k]) == filled[k]);
                        let runs = entries@[k].1.pixels.run_list();
                        assert(taken@[k] >= runs.len());
                        assert(runs.take(taken@[k] as int) =~= runs);
                    }
                    lemma_merged_pixels(out@, stack@);
                }
                break;
            },
            Some(b) => {
                let ghost before_out = out@;
                let ghost before_taken = taken@;
                let layer: usize = entries[b].0;
                let cursor: usize = taken[b];
                let span: Span = entries[b].1.pixels.spans()[cursor];
                proof {
                    lemma_left(entries@, taken@, entries@.len() as int, b as int);
                    let next = taken@.update(b as int, (cursor + 1) as usize);
                    lemma_left_bound(entries@, next, entries@.len() as int);
                    assert(entry_model(entries@[b as int]) == filled[b as int]);
                }
                out.push((layer, span));
                taken.set(b, cursor + 1);
                proof {
                    assert(out@.drop_last() =~= before_out);
                    let runs_b = entries@[b as int].1.pixels.run_list();
                    assert(runs_b.take(cursor + 1) =~= runs_b.take(cursor as int).push(span));
                    assert forall|k: int| 0 <= k < entries@.len() implies of_layer(
                        out@,
                        (#[trigger] entries@[k]).0 as int,
                    ) == entries@[k].1.pixels.run_list().take(taken@[k] as int) by {
                        if k != b {
                            assert(entry_model(entries@[k]) == filled[k]);
                            assert(filled[k].0 != filled[b as int].0);
                        }
                    }
                    assert forall|j: int, k: int| 0 <= j < k < out@.len() implies starts_by(
                        out@[j].1,
                        out@[k].1,
                    ) by {
                        if k == out@.len() - 1 {
                            assert(starts_by(before_out.last().1, span));
                            if j < before_out.len() - 1 {
                                assert(starts_by(before_out[j].1, before_out.last().1));
                            }
                        }
                    }
                    assert(canonical(runs_b));
                    if cursor + 1 < runs_b.len() {
                        assert(before(runs_b[cursor as int], runs_b[cursor + 1]));
                        assert(runs_b[cursor as int].wf());
                    }
                }
            },
        }
    }
    out
}

proof fn lemma_two_of_layer(spans: Seq<(usize, Span)>, layer: int, j: int, k: int) -> (places: (
    int,
    int,
))
    requires
        0 <= j < k < spans.len(),
        spans[j].0 == layer,
        spans[k].0 == layer,
    ensures
        ({
            let part = of_layer(spans, layer);
            &&& 0 <= places.0 < places.1 < part.len()
            &&& part[places.0] == spans[j].1
            &&& part[places.1] == spans[k].1
        }),
    decreases spans.len(),
{
    let earlier = spans.drop_last();
    let part = of_layer(spans, layer);
    if k < spans.len() - 1 {
        let (m, n) = lemma_two_of_layer(earlier, layer, j, k);
        (m, n)
    } else {
        lemma_of_layer(earlier, layer);
        assert(earlier[j] == spans[j]);
        let m = of_layer(earlier, layer).index_of(spans[j].1);
        (m, part.len() - 1)
    }
}

/// Merged runs come from top to bottom and from left to right. A layer's runs are all there and no
/// others, each once.
pub proof fn merged_runs_are_those_of_the_layers(
    spans: Seq<(usize, Span)>,
    stack: Seq<LayerModel>,
    layer: int,
    runs: Seq<Span>,
    j: int,
    k: int,
    m: int,
)
    requires
        merged(spans, stack),
        0 <= layer < stack.len(),
        canonical(runs),
        runs.len() > 0,
        pixels(runs) == stack[layer].pixels,
        0 <= j < k < spans.len(),
        0 <= m < runs.len(),
    ensures
        spans[j].1.y < spans[k].1.y || (spans[j].1.y == spans[k].1.y && spans[j].1.start
            <= spans[k].1.start),
        spans[k].0 < stack.len(),
        spans[k].0 == layer ==> runs.contains(spans[k].1),
        spans[j].0 == layer && spans[k].0 == layer ==> spans[j].1 != spans[k].1,
        exists|n: int|
            0 <= n < spans.len() && (#[trigger] spans[n]).0 == layer && spans[n].1 == runs[m],
{
    assert(starts_by(spans[j].1, spans[k].1));
    crate::ranges::lemma_empty_runs(runs);
    assert(is_filled(stack[layer]));
    let own = runs_of(stack[layer].pixels);
    assert(canonical(own) && pixels(own) == stack[layer].pixels);
    crate::span::canonical_is_unique(own, runs);
    lemma_of_layer(spans, layer);
    assert(has_run(spans, layer, of_layer(spans, layer)[m]));
    if spans[j].0 == layer && spans[k].0 == layer {
        let (a, b) = lemma_two_of_layer(spans, layer, j, k);
        assert(runs[a].wf());
        assert(before(runs[a], runs[b]));
    }
}

} // verus!
