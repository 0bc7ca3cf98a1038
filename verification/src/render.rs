//! Drawing the layers of a mask into one image.
use crate::composite::{
    color_pixel, composite_layer_over, dimmed_alpha, layer_tint,
    opaque_or_first_overwrites, pixel_under, tint,
};
use crate::layer_stack::{is_filled, PixelAreaStack};
use crate::pixel_area::LayerModel;
use crate::ranges::SortedRanges;
use crate::settings::MaskSettings;
use crate::span::{before, canonical, canonical_is_unique, covers, covers_upto, pixels, Span};
use vstd::prelude::*;

verus! {

/// The canonical runs of a region.
pub open spec fn runs_of(region: Set<(int, int)>) -> Seq<Span> {
    choose|runs: Seq<Span>| canonical(runs) && pixels(runs) == region
}

/// A region's own list of runs is the canonical one.
pub(crate) proof fn lemma_runs_of(region: SortedRanges)
    requires
        region.wf(),
    ensures
        runs_of(region@) == region.run_list(),
{
    let runs = region.run_list();
    assert(canonical(runs) && pixels(runs) == region@);
    canonical_is_unique(runs_of(region@), runs);
}

/// Where a run starts in an image of the given width, counted row by row.
pub open spec fn flat_start(run: Span, width: int) -> int {
    run.y * width + run.start
}

/// Where a run ends in an image of the given width, counted row by row.
pub open spec fn flat_end(run: Span, width: int) -> int {
    run.y * width + run.end
}

/// The image with `paint` done to the pixels `from..to` that it has.
pub open spec fn run_painted(
    image: Seq<u32>,
    from: int,
    to: int,
    paint: spec_fn(u32) -> u32,
) -> Seq<u32> {
    Seq::new(
        image.len(),
        |p: int|
            if from <= p < to {
                paint(image[p])
            } else {
                image[p]
            },
    )
}

/// Whether the first `n` runs end inside an image of `len` pixels.
pub open spec fn runs_end_inside(runs: Seq<Span>, n: int, width: int, len: int) -> bool {
    forall|j: int| 0 <= j < n ==> flat_end(#[trigger] runs[j], width) <= len
}

/// The image with `paint` done along the first `n` runs, up to the first that leaves the image.
pub open spec fn runs_painted(
    image: Seq<u32>,
    runs: Seq<Span>,
    n: int,
    width: int,
    paint: spec_fn(u32) -> u32,
) -> Seq<u32>
    decreases n,
{
    if n <= 0 {
        image
    } else {
        let earlier = runs_painted(image, runs, n - 1, width, paint);
        if runs_end_inside(runs, n - 1, width, image.len() as int) {
            run_painted(
                earlier,
                flat_start(runs[n - 1], width),
                flat_end(runs[n - 1], width),
                paint,
            )
        } else {
            earlier
        }
    }
}

/// How a layer of this tint changes a pixel. The first layer and an opaque one overwrite it.
pub open spec fn layer_paint(first: bool, tint: [u8; 4]) -> spec_fn(u32) -> u32 {
    if first || tint[3] == 255 {
        |p: u32| color_pixel(tint)
    } else {
        |p: u32| pixel_under(p, (255 - tint[3]) as u8, tint)
    }
}

/// How strongly a layer shows.
pub open spec fn layer_opacity(settings: MaskSettings, active: Option<usize>, layer: int) -> u8 {
    settings.opacity_of(active is Some && active->0 == layer)
}

/// Whether a layer leaves a trace in the image.
pub open spec fn is_drawn(layer: LayerModel, opacity: u8) -> bool {
    is_filled(layer) && dimmed_alpha(layer.color, opacity) != 0
}

/// Whether one of the first `n` layers leaves a trace in the image.
pub open spec fn any_drawn(
    stack: Seq<LayerModel>,
    settings: MaskSettings,
    active: Option<usize>,
    n: int,
) -> bool {
    exists|i: int|
        0 <= i < n && is_drawn(#[trigger] stack[i], layer_opacity(settings, active, i))
}

/// The image of the first `n` layers on blank pixels.
pub open spec fn image_of(
    stack: Seq<LayerModel>,
    settings: MaskSettings,
    active: Option<usize>,
    width: int,
    len: nat,
    n: int,
) -> Seq<u32>
    decreases n,
{
    if n <= 0 {
        Seq::new(len, |p: int| 0u32)
    } else {
        let below = image_of(stack, settings, active, width, len, n - 1);
        let layer = stack[n - 1];
        let opacity = layer_opacity(settings, active, n - 1);
        if is_drawn(layer, opacity) {
            let runs = runs_of(layer.pixels);
            runs_painted(
                below,
                runs,
                runs.len() as int,
                width,
                layer_paint(
                    !any_drawn(stack, settings, active, n - 1),
                    layer_tint(layer.color, opacity),
                ),
            )
        } else {
            below
        }
    }
}

/// What the first `n` layers show at one pixel: each layer that has the pixel is blended over those
/// below it.
pub open spec fn shown_at(
    stack: Seq<LayerModel>,
    settings: MaskSettings,
    active: Option<usize>,
    x: int,
    y: int,
    n: int,
) -> u32
    decreases n,
{
    if n <= 0 {
        0
    } else {
        let under = shown_at(stack, settings, active, x, y, n - 1);
        let opacity = layer_opacity(settings, active, n - 1);
        let alpha = dimmed_alpha(stack[n - 1].color, opacity);
        if alpha != 0 && stack[n - 1].pixels.contains((x, y)) {
            pixel_under(under, (255 - alpha) as u8, layer_tint(stack[n - 1].color, opacity))
        } else {
            under
        }
    }
}

/// Whether the region can be held by runs, all left of the right edge of an image of this width.
pub open spec fn within_width(region: Set<(int, int)>, width: int) -> bool {
    forall|x: int, y: int| #[trigger] region.contains((x, y)) ==> x < width
}

proof fn lemma_flat(run: Span, width: int, p: int)
    requires
        run.wf(),
        run.end <= width,
        0 <= p,
    ensures
        run.has(p % width, p / width) == (flat_start(run, width) <= p < flat_end(run, width)),
{
    let (x, y) = (p % width, p / width);
    assert(p == y * width + x && 0 <= x < width && 0 <= y) by (nonlinear_arith)
        requires
            x == p % width,
            y == p / width,
            0 <= p,
            0 < width,
    ;
    if y < run.y {
        assert(y * width + width <= run.y * width) by (nonlinear_arith)
            requires
                y < run.y,
                0 < width,
        ;
    } else if y > run.y {
        assert(run.y * width + width <= y * width) by (nonlinear_arith)
            requires
                y > run.y,
                0 < width,
        ;
    }
}

proof fn lemma_flat_order(a: Span, b: Span, width: int)
    requires
        before(a, b),
        a.wf(),
        b.wf(),
        a.end <= width,
    ensures
        flat_end(a, width) <= flat_start(b, width),
{
    if a.y < b.y {
        assert(a.y * width + width <= b.y * width) by (nonlinear_arith)
            requires
                a.y < b.y,
                0 < width,
        ;
    }
}

/// Runs inside the width of the image touch each of their pixels once.
proof fn lemma_runs_painted(
    image: Seq<u32>,
    runs: Seq<Span>,
    n: int,
    width: int,
    paint: spec_fn(u32) -> u32,
)
    requires
        canonical(runs),
        0 <= n <= runs.len(),
        forall|j: int| 0 <= j < runs.len() ==> (#[trigger] runs[j]).end <= width,
    ensures
        runs_painted(image, runs, n, width, paint).len() == image.len(),
        forall|p: int|
            0 <= p < image.len() ==> #[trigger] runs_painted(image, runs, n, width, paint)[p]
                == if covers_upto(runs, n, p % width, p / width) {
                paint(image[p])
            } else {
                image[p]
            },
    decreases n,
{
    if n > 0 {
        lemma_runs_painted(image, runs, n - 1, width, paint);
        let earlier = runs_painted(image, runs, n - 1, width, paint);
        let whole = runs_painted(image, runs, n, width, paint);
        let run = runs[n - 1];
        assert forall|p: int| 0 <= p < image.len() implies #[trigger] whole[p] == if covers_upto(
            runs,
            n,
            p % width,
            p / width,
        ) {
            paint(image[p])
        } else {
            image[p]
        } by {
            lemma_flat(run, width, p);
            crate::span::lemma_upto_step(runs, n - 1);
            let (x, y) = (p % width, p / width);
            if covers_upto(runs, n - 1, x, y) {
                let j = choose|j: int| 0 <= j < n - 1 && (#[trigger] runs[j]).has(x, y);
                lemma_flat(runs[j], width, p);
                lemma_flat_order(runs[j], run, width);
            }
            if !runs_end_inside(runs, n - 1, width, image.len() as int) {
                let j = choose|j: int|
                    0 <= j < n - 1 && flat_end(#[trigger] runs[j], width) > image.len();
                lemma_flat_order(runs[j], run, width);
            }
        }
    }
}

/// Where the first layers lie within the width of the image, the image shows at each pixel the
/// layers that have this pixel, each blended over those below it. The shortcuts for the first layer
/// and for opaque ones do not show.
pub proof fn image_shows_layers(
    stack: Seq<LayerModel>,
    settings: MaskSettings,
    active: Option<usize>,
    width: int,
    len: nat,
    n: int,
)
    requires
        0 <= n <= stack.len(),
        forall|i: int|
            0 <= i < n && is_filled(#[trigger] stack[i]) ==> within_width(stack[i].pixels, width)
                && exists|runs: Seq<Span>| canonical(runs) && pixels(runs) == stack[i].pixels,
    ensures
        image_of(stack, settings, active, width, len, n).len() == len,
        forall|p: int|
            0 <= p < len ==> #[trigger] image_of(stack, settings, active, width, len, n)[p]
                == shown_at(stack, settings, active, p % width, p / width, n),
    decreases n,
{
    if n > 0 {
        image_shows_layers(stack, settings, active, width, len, n - 1);
        let below = image_of(stack, settings, active, width, len, n - 1);
        let whole = image_of(stack, settings, active, width, len, n);
        let layer = stack[n - 1];
        let opacity = layer_opacity(settings, active, n - 1);
        let color = layer_tint(layer.color, opacity);
        let first = !any_drawn(stack, settings, active, n - 1);
        if is_drawn(layer, opacity) {
            let runs = runs_of(layer.pixels);
            assert(canonical(runs) && pixels(runs) == layer.pixels);
            assert forall|j: int| 0 <= j < runs.len() implies (#[trigger] runs[j]).end <= width by {
                let x = runs[j].end - 1;
                assert(runs[j].has(x, runs[j].y as int));
                assert(covers(runs, x, runs[j].y as int));
                assert(layer.pixels.contains((x, runs[j].y as int)));
            }
            let paint = layer_paint(first, color);
            lemma_runs_painted(below, runs, runs.len() as int, width, paint);
            assert forall|p: int| 0 <= p < len implies #[trigger] whole[p] == shown_at(
                stack,
                settings,
                active,
                p % width,
                p / width,
                n,
            ) by {
                let (x, y) = (p % width, p / width);
                assert(covers(runs, x, y) == layer.pixels.contains((x, y)));
                if first {
                    lemma_nothing_drawn(stack, settings, active, x, y, n - 1);
                    opaque_or_first_overwrites(below[p], (255 - color[3]) as u8, color);
                } else if color[3] == 255 {
                    opaque_or_first_overwrites(below[p], 0, color);
                }
            }
        } else {
            assert(whole == below);
            assert forall|p: int| 0 <= p < len implies #[trigger] whole[p] == shown_at(
                stack,
                settings,
                active,
                p % width,
                p / width,
                n,
            ) by {
                assert(below[p] == shown_at(stack, settings, active, p % width, p / width, n - 1));
            }
        }
    }
}

proof fn lemma_nothing_drawn(
    stack: Seq<LayerModel>,
    settings: MaskSettings,
    active: Option<usize>,
    x: int,
    y: int,
    n: int,
)
    requires
        !any_drawn(stack, settings, active, n),
    ensures
        shown_at(stack, settings, active, x, y, n) == 0,
    decreases n,
{
    if n > 0 {
        assert(!is_drawn(stack[n - 1], layer_opacity(settings, active, n - 1)));
        assert forall|i: int| 0 <= i < n - 1 implies !is_drawn(
            #[trigger] stack[i],
            layer_opacity(settings, active, i),
        ) by {}
        lemma_nothing_drawn(stack, settings, active, x, y, n - 1);
    }
}

/// Sets the pixels `from..to` to one color.
fn fill_color(image: &mut Vec<u32>, from: usize, to: usize, color: u32)
    requires
        from <= to <= old(image)@.len(),
    ensures
        final(image)@ == run_painted(old(image)@, from as int, to as int, |p: u32| color),
{
    let ghost start = image@;
    let mut i: usize = from;
    while i < to
        invariant
            from <= i <= to,
            to <= image@.len(),
            image@.len() == start.len(),
            forall|p: int|
                0 <= p < image@.len() ==> #[trigger] image@[p] == if from <= p < i {
                    color
                } else {
                    start[p]
                },
        decreases to - i,
    {
        image.set(i, color);
        i += 1;
    }
    assert(image@ =~= run_painted(start, from as int, to as int, |p: u32| color));
}

/// Blends the tint over the pixels `from..to`.
fn blend_color(image: &mut Vec<u32>, from: usize, to: usize, color: [u8; 4])
    requires
        from <= to <= old(image)@.len(),
    ensures
        final(image)@ == run_painted(
            old(image)@,
            from as int,
            to as int,
            |p: u32| pixel_under(p, (255 - color[3]) as u8, color),
        ),
{
    let ghost start = image@;
    let t: u8 = 255 - color[3];
    let (_, rest) = image.as_mut_slice().split_at_mut(from);
    let (target, _) = rest.split_at_mut(to - from);
    composite_layer_over(target, t, color);
    assert(image@ =~= run_painted(
        start,
        from as int,
        to as int,
        |p: u32| pixel_under(p, (255 - color[3]) as u8, color),
    ));
}

/// Draws one layer into the image, run by run, up to the first run that leaves the image.
fn draw_layer(image: &mut Vec<u32>, width: u32, runs: &[Span], first: bool, color: [u8; 4])
    ensures
        final(image)@ == runs_painted(
            old(image)@,
            runs@,
            runs@.len() as int,
            width as int,
            layer_paint(first, color),
        ),
        final(image)@.len() == old(image)@.len(),
{
    let overwrite: bool = first || color[3] == 255;
    let pixel: u32 = color[0] as u32 + 256 * color[1] as u32 + 65536 * color[2] as u32 + 16777216
        * color[3] as u32;
    let ghost paint = layer_paint(first, color);
    let ghost start = image@;
    let len: usize = image.len();
    let mut inside = true;
    let mut i: usize = 0;
    while i < runs.len() && inside
        invariant
            i <= runs@.len(),
            image@.len() == len,
            start.len() == len,
            pixel == color_pixel(color),
            overwrite == (first || color[3] == 255),
            paint == layer_paint(first, color),
            inside == runs_end_inside(runs@, i as int, width as int, len as int),
            image@ == runs_painted(start, runs@, i as int, width as int, paint),
        decreases runs@.len() - i,
    {
        let run: Span = runs[i];
        proof {
            lemma_flat_fits(run, width);
        }
        let row: u64 = run.y as u64 * width as u64;
        let from: u64 = row + run.start as u64;
        let to: u64 = row + run.end as u64;
        let ghost was = image@;
        if from < len as u64 {
            let lo: usize = from as usize;
            let hi: usize = if to <= len as u64 {
                to as usize
            } else {
                len
            };
            if lo <= hi {
                if overwrite {
                    fill_color(image, lo, hi, pixel);
                } else {
                    blend_color(image, lo, hi, color);
                }
            }
        }
        assert(image@ =~= run_painted(was, from as int, to as int, paint));
        inside = to <= len as u64;
        i += 1;
        assert(runs_end_inside(runs@, i as int, width as int, len as int) == inside);
    }
    proof {
        lemma_stopped(start, runs@, i as int, runs@.len() as int, width as int, paint);
    }
}

proof fn lemma_flat_fits(run: Span, width: u32)
    ensures
        run.y * width + u32::MAX <= u64::MAX,
{
    assert(run.y * width <= 0xFFFF_FFFF * 0xFFFF_FFFF) by (nonlinear_arith)
        requires
            0 <= run.y <= 0xFFFF_FFFF,
            0 <= width <= 0xFFFF_FFFF,
    ;
}

/// Runs behind one that leaves the image paint nothing.
proof fn lemma_stopped(
    image: Seq<u32>,
    runs: Seq<Span>,
    i: int,
    n: int,
    width: int,
    paint: spec_fn(u32) -> u32,
)
    requires
        0 <= i <= n,
        i < n ==> !runs_end_inside(runs, i, width, image.len() as int),
    ensures
        runs_painted(image, runs, n, width, paint) == runs_painted(image, runs, i, width, paint),
    decreases n - i,
{
    if i < n {
        if i < n - 1 {
            lemma_stopped(image, runs, i, n - 1, width, paint);
        }
        assert(!runs_end_inside(runs, n - 1, width, image.len() as int));
    }
}

/// Draws the layers over each other, bottom first, on `len` blank pixels in rows of `width`.
pub fn draw_stack(
    stack: &PixelAreaStack,
    settings: &MaskSettings,
    active: Option<usize>,
    width: u32,
    len: usize,
) -> (image: Vec<u32>)
    ensures
        image@ == image_of(
            stack@,
            *settings,
            active,
            width as int,
            len as nat,
            stack@.len() as int,
        ),
        image@.len() == len,
{
    let mut image: Vec<u32> = vec![0u32; len];
    assert(image@ =~= Seq::new(len as nat, |p: int| 0u32));
    let mut first = true;
    let mut i: usize = 0;
    while i < stack.max_layer()
        invariant
            i <= stack@.len(),
            first == !any_drawn(stack@, *settings, active, i as int),
            image@ == image_of(stack@, *settings, active, width as int, len as nat, i as int),
            image@.len() == len,
        decreases stack@.len() - i,
    {
        let ghost drawn = is_drawn(stack@[i as int], layer_opacity(*settings, active, i as int));
        let ghost had = any_drawn(stack@, *settings, active, i as int);
        if let Some(area) = stack.get(i) {
            let is_active: bool = active == Some(i);
            let color: [u8; 4] = tint(area.color, settings.opacity(is_active));
            if color[3] != 0 {
                proof {
                    use_type_invariant(&area.pixels);
                    lemma_runs_of(area.pixels);
                }
                draw_layer(&mut image, width, area.pixels.spans(), first, color);
                first = false;
            }
        }
        proof {
            if drawn {
                assert(any_drawn(stack@, *settings, active, i + 1));
            }
            if any_drawn(stack@, *settings, active, i + 1) {
                let k = choose|k: int|
                    0 <= k < i + 1 && is_drawn(
                        #[trigger] stack@[k],
                        layer_opacity(*settings, active, k),
                    );
                assert(k == i || had);
            }
        }
        i += 1;
    }
    image
}

/// One more layer on top changes the image where the layer has pixels and its alpha is not nothing:
/// there it is blended over what the layers below show. The active layer has the active opacity, the
/// others have the default one. On no layer at all the image is blank.
pub proof fn image_with_one_layer_more(
    stack: Seq<LayerModel>,
    settings: MaskSettings,
    active: Option<usize>,
    width: int,
    len: nat,
    n: int,
    p: int,
)
    requires
        0 < n <= stack.len() <= usize::MAX,
        0 < width,
        forall|i: int|
            0 <= i < n && (#[trigger] stack[i]).pixels != Set::<(int, int)>::empty() ==> (forall|
                x: int,
                y: int,
            | #[trigger] stack[i].pixels.contains((x, y)) ==> x < width) && exists|runs: Seq<Span>|
                canonical(runs) && pixels(runs) == stack[i].pixels,
        0 <= p < len,
    ensures
        image_of(stack, settings, active, width, len, 0)[p] == 0,
        image_of(stack, settings, active, width, len, n).len() == len,
        ({
            let layer = stack[n - 1];
            let opacity = if active == Some((n - 1) as usize) {
                settings.active_opacity
            } else {
                settings.default_opacity
            };
            let alpha = layer.color[3] * opacity / 255;
            let under = image_of(stack, settings, active, width, len, n - 1)[p] as int;
            let shown = image_of(stack, settings, active, width, len, n)[p] as int;
            &&& !layer.pixels.contains((p % width, p / width)) || alpha == 0 ==> shown == under
            &&& layer.pixels.contains((p % width, p / width)) && alpha != 0 ==> {
                &&& shown % 256 == (under % 256 * (255 - alpha) / 255 + (2 * layer.color[0] * alpha + 255) / 510) % 256
                &&& shown / 256 % 256 == (under / 256 % 256 * (255 - alpha) / 255 + (2 * layer.color[1] * alpha + 255) / 510) % 256
                &&& shown / 65536 % 256 == (under / 65536 % 256 * (255 - alpha) / 255 + (2 * layer.color[2] * alpha + 255) / 510) % 256
                &&& shown / 16777216 == (under / 16777216 * (255 - alpha) / 255 + alpha) % 256
            }
        }),
{
    assert forall|i: int| 0 <= i < n && is_filled(#[trigger] stack[i]) implies within_width(
        stack[i].pixels,
        width,
    ) && exists|runs: Seq<Span>| canonical(runs) && pixels(runs) == stack[i].pixels by {}
    image_shows_layers(stack, settings, active, width, len, n);
    image_shows_layers(stack, settings, active, width, len, n - 1);
    let (x, y) = (p % width, p / width);
    let layer = stack[n - 1];
    let opacity = layer_opacity(settings, active, n - 1);
    let under = shown_at(stack, settings, active, x, y, n - 1);
    assert(image_of(stack, settings, active, width, len, n)[p] == shown_at(
        stack,
        settings,
        active,
        x,
        y,
        n,
    ));
    assert(image_of(stack, settings, active, width, len, n - 1)[p] == under);
    let alpha = dimmed_alpha(layer.color, opacity);
    let color = layer_tint(layer.color, opacity);
    crate::composite::channels_of_tint(layer.color, opacity, 0);
    crate::composite::channels_of_tint(layer.color, opacity, 1);
    crate::composite::channels_of_tint(layer.color, opacity, 2);
    crate::composite::channels_of_blended(under, (255 - alpha) as u8, color);
}

/// Runs are painted one after the other, each from its start to its end as far as the image has
/// pixels, until one has left the image.
pub proof fn runs_are_painted_in_turn(
    image: Seq<u32>,
    runs: Seq<Span>,
    n: int,
    width: int,
    paint: spec_fn(u32) -> u32,
    p: int,
)
    requires
        0 < n <= runs.len(),
        0 <= p < image.len(),
    ensures
        runs_painted(image, runs, 0, width, paint) == image,
        runs_painted(image, runs, n, width, paint).len() == image.len(),
        ({
            let earlier = runs_painted(image, runs, n - 1, width, paint)[p];
            let all_inside = forall|j: int|
                0 <= j < n - 1 ==> (#[trigger] runs[j]).y * width + runs[j].end <= image.len();
            runs_painted(image, runs, n, width, paint)[p] == if all_inside && runs[n - 1].y * width
                + runs[n - 1].start <= p && p < runs[n - 1].y * width + runs[n - 1].end {
                paint(earlier)
            } else {
                earlier
            }
        }),
{
    lemma_painted_len(image, runs, n, width, paint);
    lemma_painted_len(image, runs, n - 1, width, paint);
    let all_inside = forall|j: int|
        0 <= j < n - 1 ==> (#[trigger] runs[j]).y * width + runs[j].end <= image.len();
    if runs_end_inside(runs, n - 1, width, image.len() as int) {
        assert forall|j: int| 0 <= j < n - 1 implies (#[trigger] runs[j]).y * width + runs[j].end
            <= image.len() by {
            assert(flat_end(runs[j], width) <= image.len());
        }
    }
    if all_inside {
        assert(runs_end_inside(runs, n - 1, width, image.len() as int));
    }
}

proof fn lemma_painted_len(
    image: Seq<u32>,
    runs: Seq<Span>,
    n: int,
    width: int,
    paint: spec_fn(u32) -> u32,
)
    ensures
        runs_painted(image, runs, n, width, paint).len() == image.len(),
    decreases n,
{
    if n > 0 {
        lemma_painted_len(image, runs, n - 1, width, paint);
    }
}

/// A layer that leaves a trace is painted run by run over the layers below, also where it is wider than
/// the image: the first such layer and an opaque one set each pixel to their tint, any other is
/// blended over it. A layer without pixels and one without alpha paint nothing.
pub proof fn layers_are_painted_run_by_run(
    stack: Seq<LayerModel>,
    settings: MaskSettings,
    active: Option<usize>,
    width: int,
    len: nat,
    n: int,
    runs: Seq<Span>,
)
    requires
        0 < n <= stack.len() <= usize::MAX,
        canonical(runs),
        pixels(runs) == stack[n - 1].pixels,
    ensures
        ({
            let opacity = if active == Some((n - 1) as usize) {
                settings.active_opacity
            } else {
                settings.default_opacity
            };
            let alpha = stack[n - 1].color[3] * opacity / 255;
            let tint = layer_tint(stack[n - 1].color, opacity);
            let below = image_of(stack, settings, active, width, len, n - 1);
            let shown = image_of(stack, settings, active, width, len, n);
            let first = forall|i: int|
                0 <= i < n - 1 ==> (#[trigger] stack[i]).pixels == Set::<(int, int)>::empty()
                    || stack[i].color[3] * (if active == Some(i as usize) {
                    settings.active_opacity
                } else {
                    settings.default_opacity
                }) / 255 == 0;
            &&& runs.len() == 0 || alpha == 0 ==> shown == below
            &&& runs.len() > 0 && alpha != 0 ==> exists|paint: spec_fn(u32) -> u32|
                shown == #[trigger] runs_painted(below, runs, runs.len() as int, width, paint)
                    && forall|p: u32| #[trigger]
                    paint(p) == if first || alpha == 255 {
                        color_pixel(tint)
                    } else {
                        pixel_under(p, (255 - alpha) as u8, tint)
                    }
        }),
{
    let layer = stack[n - 1];
    let opacity = layer_opacity(settings, active, n - 1);
    crate::ranges::lemma_empty_runs(runs);
    crate::composite::channels_of_tint(layer.color, opacity, 0);
    let own = runs_of(layer.pixels);
    assert(canonical(own) && pixels(own) == layer.pixels);
    canonical_is_unique(own, runs);
    assert forall|i: int| 0 <= i < n - 1 implies is_drawn(
        #[trigger] stack[i],
        layer_opacity(settings, active, i),
    ) == (stack[i].pixels != Set::<(int, int)>::empty() && stack[i].color[3] * (if active == Some(
        i as usize,
    ) {
        settings.active_opacity
    } else {
        settings.default_opacity
    }) / 255 != 0) by {
        crate::composite::channels_of_tint(
            stack[i].color,
            layer_opacity(settings, active, i),
            0,
        );
    }
    let first = !any_drawn(stack, settings, active, n - 1);
    let paint = layer_paint(first, layer_tint(layer.color, opacity));
    if is_drawn(layer, opacity) {
        let below = image_of(stack, settings, active, width, len, n - 1);
        assert(image_of(stack, settings, active, width, len, n) == runs_painted(
            below,
            runs,
            runs.len() as int,
            width,
            paint,
        ));
    }
}

} // verus!
