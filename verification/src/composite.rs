//! Blending a color over pixels.
//!
//! A pixel is one `u32` that holds the premultiplied red, green, blue and alpha of the pixel, red
//! in its lowest byte.
use vstd::prelude::*;

verus! {

/// Channel `k` of a pixel: red, green, blue, alpha.
pub open spec fn channel(pixel: u32, k: int) -> int {
    if k == 0 {
        pixel as int % 256
    } else if k == 1 {
        pixel as int / 256 % 256
    } else if k == 2 {
        pixel as int / 65536 % 256
    } else {
        pixel as int / 16777216
    }
}

/// The pixel of the four channels.
pub open spec fn packed(r: int, g: int, b: int, a: int) -> u32 {
    (r + 256 * g + 65536 * b + 16777216 * a) as u32
}

/// The pixel of a color.
pub open spec fn color_pixel(color: [u8; 4]) -> u32 {
    packed(color[0] as int, color[1] as int, color[2] as int, color[3] as int)
}

/// A channel `under` that lets `t` of 255 parts through a layer with the channel `over`.
pub open spec fn blended(under: int, t: int, over: int) -> int {
    (under * t / 255 + over) % 256
}

/// Source-over blending in premultiplied space: `layer + under * (1 - alpha)`, channel by channel.
pub open spec fn pixel_under(under: u32, t: u8, layer: [u8; 4]) -> u32 {
    packed(
        blended(channel(under, 0), t as int, layer[0] as int),
        blended(channel(under, 1), t as int, layer[1] as int),
        blended(channel(under, 2), t as int, layer[2] as int),
        blended(channel(under, 3), t as int, layer[3] as int),
    )
}

/// The pixels with the layer blended over each.
pub open spec fn all_under(pixels: Seq<u32>, t: u8, layer: [u8; 4]) -> Seq<u32> {
    pixels.map_values(|p: u32| pixel_under(p, t, layer))
}

/// The channels of a packed pixel are those it was packed from.
pub proof fn channels_of_packed(r: int, g: int, b: int, a: int)
    requires
        0 <= r < 256,
        0 <= g < 256,
        0 <= b < 256,
        0 <= a < 256,
    ensures
        channel(packed(r, g, b, a), 0) == r,
        channel(packed(r, g, b, a), 1) == g,
        channel(packed(r, g, b, a), 2) == b,
        channel(packed(r, g, b, a), 3) == a,
{
    let (cr, cg, cb, ca) = (r as u32, g as u32, b as u32, a as u32);
    assert(({
        let v = (cr + 256 * cg + 65536 * cb + 16777216 * ca) as u32;
        v % 256 == cr && v / 256 % 256 == cg && v / 65536 % 256 == cb && v / 16777216 == ca
    })) by (bit_vector)
        requires
            cr < 256,
            cg < 256,
            cb < 256,
            ca < 256,
    ;
}

/// A fully opaque layer hides what is below it, and over a blank pixel any layer shows its color.
pub proof fn opaque_or_first_overwrites(under: u32, t: u8, layer: [u8; 4])
    requires
        t == 0 || under == 0,
    ensures
        pixel_under(under, t, layer) == color_pixel(layer),
{
    assert(forall|c: int| #[trigger] (c * 0) == 0);
    assert(forall|c: int| #[trigger] (0 * c) == 0);
}

/// Division by 255 as a multiplication and a shift: exact for the products of two channels.
pub proof fn shift_divides_by_255(c: u32, t: u32)
    requires
        c <= 255,
        t <= 255,
    ensures
        c * t <= 65025,
        ((((c * t) as u32 + 1) * 257) as u32) >> 16 == c * t / 255,
{
    assert(c * t <= 255 * 255) by (nonlinear_arith)
        requires
            0 <= c <= 255,
            0 <= t <= 255,
    ;
    let x: u32 = (c * t) as u32;
    assert((((x + 1) * 257) as u32) >> 16 == x / 255) by (bit_vector)
        requires
            x <= 65025,
    ;
}

/// Blends the layer over each pixel, a channel at a time.
pub fn composite_scalar(pixels: &mut [u32], t: u8, layer: [u8; 4])
    ensures
        final(pixels)@ == all_under(old(pixels)@, t, layer),
{
    let mut i: usize = 0;
    while i < pixels.len()
        invariant
            i <= pixels@.len(),
            pixels@.len() == old(pixels)@.len(),
            forall|k: int| 0 <= k < i ==> #[trigger] pixels@[k] == pixel_under(old(pixels)@[k], t, layer),
            forall|k: int| i <= k < pixels@.len() ==> pixels@[k] == old(pixels)@[k],
        decreases pixels@.len() - i,
    {
        let d: u32 = pixels[i];
        let r: u32 = scalar_channel(d % 256, t, layer[0]);
        let g: u32 = scalar_channel(d / 256 % 256, t, layer[1]);
        let b: u32 = scalar_channel(d / 65536 % 256, t, layer[2]);
        let a: u32 = scalar_channel(d / 16777216, t, layer[3]);
        pixels[i] = r + 256 * g + 65536 * b + 16777216 * a;
        i += 1;
    }
    assert(pixels@ =~= all_under(old(pixels)@, t, layer));
}

fn scalar_channel(d: u32, t: u8, l: u8) -> (o: u32)
    requires
        d < 256,
    ensures
        o == blended(d as int, t as int, l as int),
        o < 256,
{
    proof {
        shift_divides_by_255(d, t as u32);
    }
    (d * t as u32 / 255 + l as u32) % 256
}

/// A channel of the layer over a channel of a pixel, with no division.
fn composite_channel(c: u32, t: u32, l: u32) -> (o: u32)
    requires
        c < 256,
        t < 256,
        l < 256,
    ensures
        o == c * t / 255 + l,
        o < 512,
{
    proof {
        shift_divides_by_255(c, t);
    }
    (((c * t + 1) * 257) >> 16) + l
}

proof fn lemma_unpack(p: u32)
    ensures
        p & 0xFF == p % 256,
        (p >> 8) & 0xFF == p / 256 % 256,
        (p >> 16) & 0xFF == p / 65536 % 256,
        p >> 24 == p / 16777216,
{
    assert(p & 0xFF == p % 256 && (p >> 8) & 0xFF == p / 256 % 256 && (p >> 16) & 0xFF == p / 65536
        % 256 && p >> 24 == p / 16777216) by (bit_vector);
}

proof fn lemma_pack(r: u32, g: u32, b: u32, a: u32)
    requires
        r < 512,
        g < 512,
        b < 512,
        a < 512,
    ensures
        ((r & 0xFF) | ((g << 8) & 0xFF00)) | (((b << 16) & 0xFF0000) | (a << 24)) == (r % 256)
            + 256 * (g % 256) + 65536 * (b % 256) + 16777216 * (a % 256),
{
    assert(((r & 0xFF) | ((g << 8) & 0xFF00)) | (((b << 16) & 0xFF0000) | (a << 24)) == ((r % 256)
        + 256 * (g % 256) + 65536 * (b % 256) + 16777216 * (a % 256)) as u32) by (bit_vector);
}

/// Blends the layer over each pixel, with the same whole-word steps for each, so that several
/// pixels can be worked on at once.
fn composite_words(pixels: &mut [u32], t: u8, layer: [u8; 4])
    ensures
        final(pixels)@ == all_under(old(pixels)@, t, layer),
{
    let t32: u32 = t as u32;
    let mut i: usize = 0;
    while i < pixels.len()
        invariant
            i <= pixels@.len(),
            t32 == t,
            pixels@.len() == old(pixels)@.len(),
            forall|k: int| 0 <= k < i ==> #[trigger] pixels@[k] == pixel_under(old(pixels)@[k], t, layer),
            forall|k: int| i <= k < pixels@.len() ==> pixels@[k] == old(pixels)@[k],
        decreases pixels@.len() - i,
    {
        let pixel: u32 = pixels[i];
        proof {
            lemma_unpack(pixel);
        }
        let r: u32 = composite_channel(pixel & 0xFF, t32, layer[0] as u32);
        let g: u32 = composite_channel((pixel >> 8) & 0xFF, t32, layer[1] as u32);
        let b: u32 = composite_channel((pixel >> 16) & 0xFF, t32, layer[2] as u32);
        let a: u32 = composite_channel(pixel >> 24, t32, layer[3] as u32);
        proof {
            lemma_pack(r, g, b, a);
        }
        pixels[i] = ((r & 0xFF) | ((g << 8) & 0xFF00)) | (((b << 16) & 0xFF0000) | (a << 24));
        i += 1;
    }
    assert(pixels@ =~= all_under(old(pixels)@, t, layer));
}

/// `pulp::Arch::dispatch`: runs the closure once, compiled for the vector instructions that the
/// machine has. The pixels are then what the closure's `composite_words` makes of them.
#[verifier::external_body]
fn dispatch_composite(pixels: &mut [u32], t: u8, layer: [u8; 4])
    ensures
        final(pixels)@ == all_under(old(pixels)@, t, layer),
{
    pulp::Arch::new().dispatch(|| composite_words(pixels, t, layer))
}

/// Composites the constant layer color (in premultiplied space) over the given pixels using
/// source-over blending: `layer + under * (1 - alpha)`, where `t` is 255 less the alpha.
pub fn composite_layer_over(pixels: &mut [u32], t: u8, layer: [u8; 4])
    ensures
        final(pixels)@ == all_under(old(pixels)@, t, layer),
{
    dispatch_composite(pixels, t, layer);
}

/// The nearest integer to `value * alpha / 255`.
pub open spec fn premultiplied(value: u8, alpha: u8) -> u8 {
    ((2 * value * alpha + 255) / 510) as u8
}

/// `egui::Color32::from_rgba_unmultiplied` and `to_array`: the alpha as it is, and each other
/// channel times the alpha over 255, rounded to the nearest integer. (The product is never halfway
/// between two integers, and it is further from halfway than the rounding of `f32` can move it.)
#[verifier::external_body]
fn from_rgba_unmultiplied(r: u8, g: u8, b: u8, a: u8) -> (color: [u8; 4])
    ensures
        color == [premultiplied(r, a), premultiplied(g, a), premultiplied(b, a), a],
{
    egui::Color32::from_rgba_unmultiplied(r, g, b, a).to_array()
}

/// The alpha of a color under an opacity.
pub open spec fn dimmed_alpha(color: [u8; 4], opacity: u8) -> u8 {
    (color[3] * opacity / 255) as u8
}

/// The premultiplied color of a layer under an opacity.
pub open spec fn layer_tint(color: [u8; 4], opacity: u8) -> [u8; 4] {
    let a = dimmed_alpha(color, opacity);
    [premultiplied(color[0], a), premultiplied(color[1], a), premultiplied(color[2], a), a]
}

/// The premultiplied color of a layer under an opacity.
pub fn tint(color: [u8; 4], opacity: u8) -> (premultiplied_color: [u8; 4])
    ensures
        premultiplied_color == layer_tint(color, opacity),
        premultiplied_color[0] == premultiplied(color[0], dimmed_alpha(color, opacity)),
        premultiplied_color[1] == premultiplied(color[1], dimmed_alpha(color, opacity)),
        premultiplied_color[2] == premultiplied(color[2], dimmed_alpha(color, opacity)),
        premultiplied_color[3] == dimmed_alpha(color, opacity),
{
    proof {
        shift_divides_by_255(color[3] as u32, opacity as u32);
    }
    let a: u8 = (color[3] as u32 * opacity as u32 / 255) as u8;
    from_rgba_unmultiplied(color[0], color[1], color[2], a)
}

proof fn lemma_blended(u: int, t: int, l: int)
    requires
        0 <= u < 256,
        0 <= t < 256,
        0 <= l < 256,
    ensures
        ({
            let o = blended(u, t, l);
            &&& 0 <= o < 256
            &&& (255 * (o - l) <= u * t < 255 * (o - l + 1)) || (255 * (o + 256 - l) <= u * t < 255 * (o
                + 256 - l + 1))
        }),
{
    let q = u * t;
    assert(0 <= q <= 255 * 255) by (nonlinear_arith)
        requires
            q == u * t,
            0 <= u < 256,
            0 <= t < 256,
    ;
    assert(0 <= q / 255 <= 255);
}

/// Each channel of a blended pixel is the channel of the layer plus what the layer lets through of
/// the channel below: `t` of 255 parts, rounded down. It wraps only where the sum is no byte.
pub proof fn blending_adds_what_shows_through(under: u32, t: u8, layer: [u8; 4])
    ensures
        ({
            let out = pixel_under(under, t, layer) as int;
            &&& ({
                let (u, o, l) = (under as int % 256, out % 256, layer[0] as int);
                ||| 255 * (o - l) <= u * t < 255 * (o - l + 1)
                ||| 255 * (o + 256 - l) <= u * t < 255 * (o + 256 - l + 1)
            })
            &&& ({
                let (u, o, l) = (under as int / 256 % 256, out / 256 % 256, layer[1] as int);
                ||| 255 * (o - l) <= u * t < 255 * (o - l + 1)
                ||| 255 * (o + 256 - l) <= u * t < 255 * (o + 256 - l + 1)
            })
            &&& ({
                let (u, o, l) = (under as int / 65536 % 256, out / 65536 % 256, layer[2] as int);
                ||| 255 * (o - l) <= u * t < 255 * (o - l + 1)
                ||| 255 * (o + 256 - l) <= u * t < 255 * (o + 256 - l + 1)
            })
            &&& ({
                let (u, o, l) = (under as int / 16777216, out / 16777216, layer[3] as int);
                ||| 255 * (o - l) <= u * t < 255 * (o - l + 1)
                ||| 255 * (o + 256 - l) <= u * t < 255 * (o + 256 - l + 1)
            })
        }),
{
    lemma_blended(channel(under, 0), t as int, layer[0] as int);
    lemma_blended(channel(under, 1), t as int, layer[1] as int);
    lemma_blended(channel(under, 2), t as int, layer[2] as int);
    lemma_blended(channel(under, 3), t as int, layer[3] as int);
    channels_of_packed(
        blended(channel(under, 0), t as int, layer[0] as int),
        blended(channel(under, 1), t as int, layer[1] as int),
        blended(channel(under, 2), t as int, layer[2] as int),
        blended(channel(under, 3), t as int, layer[3] as int),
    );
}

/// Every pixel is blended, each by itself.
pub proof fn every_pixel_is_blended(pixels: Seq<u32>, t: u8, layer: [u8; 4], i: int)
    ensures
        all_under(pixels, t, layer).len() == pixels.len(),
        0 <= i < pixels.len() ==> all_under(pixels, t, layer)[i] == pixel_under(pixels[i], t, layer),
{
}

/// The channels of a tint.
pub(crate) proof fn channels_of_tint(color: [u8; 4], opacity: u8, k: int)
    requires
        0 <= k < 3,
    ensures
        ({
            let alpha = color[3] * opacity / 255;
            &&& 0 <= alpha <= 255
            &&& layer_tint(color, opacity)[3] == alpha
            &&& layer_tint(color, opacity)[k] == (2 * color[k] * alpha + 255) / 510
            &&& (2 * color[k] * alpha + 255) / 510 <= alpha
        }),
{
    let a = color[3] * opacity;
    assert(0 <= a <= 255 * 255) by (nonlinear_arith)
        requires
            a == color[3] * opacity,
            0 <= color[3] <= 255,
            0 <= opacity <= 255,
    ;
    let alpha = dimmed_alpha(color, opacity);
    assert(alpha == a / 255);
    let v = color[k] as int;
    let m = v * alpha;
    assert(0 <= m <= 255 * alpha) by (nonlinear_arith)
        requires
            m == v * alpha,
            0 <= v <= 255,
            0 <= alpha,
    ;
    assert(2 * color[k] * alpha == 2 * m) by (nonlinear_arith)
        requires
            m == v * alpha,
            v == color[k],
    ;
    let q = (2 * m + 255) / 510;
    assert(0 <= q <= 255);
    assert(premultiplied(color[k], alpha) == q);
}

/// The tint of a layer: its alpha is the alpha of the color under the opacity, rounded down, and each
/// other channel is the nearest byte to that of the color times this alpha. No channel is more than
/// the alpha.
pub proof fn tint_is_premultiplied(color: [u8; 4], opacity: u8, k: int)
    requires
        0 <= k < 3,
    ensures
        ({
            let tint = layer_tint(color, opacity);
            &&& 255 * tint[3] <= color[3] * opacity < 255 * (tint[3] + 1)
            &&& 255 * tint[k] - 127 <= color[k] * tint[3] <= 255 * tint[k] + 127
            &&& tint[k] <= tint[3]
        }),
{
    channels_of_tint(color, opacity, k);
    let alpha = layer_tint(color, opacity)[3] as int;
    let m = color[k] * alpha;
    assert(2 * color[k] * alpha == 2 * m) by (nonlinear_arith)
        requires
            m == color[k] * alpha,
    ;
}

/// The channels of a blended pixel.
pub(crate) proof fn channels_of_blended(under: u32, t: u8, layer: [u8; 4])
    ensures
        ({
            let out = pixel_under(under, t, layer) as int;
            &&& out % 256 == (under as int % 256 * t / 255 + layer[0]) % 256
            &&& out / 256 % 256 == (under as int / 256 % 256 * t / 255 + layer[1]) % 256
            &&& out / 65536 % 256 == (under as int / 65536 % 256 * t / 255 + layer[2]) % 256
            &&& out / 16777216 == (under as int / 16777216 * t / 255 + layer[3]) % 256
        }),
{
    lemma_blended(channel(under, 0), t as int, layer[0] as int);
    lemma_blended(channel(under, 1), t as int, layer[1] as int);
    lemma_blended(channel(under, 2), t as int, layer[2] as int);
    lemma_blended(channel(under, 3), t as int, layer[3] as int);
    channels_of_packed(
        blended(channel(under, 0), t as int, layer[0] as int),
        blended(channel(under, 1), t as int, layer[1] as int),
        blended(channel(under, 2), t as int, layer[2] as int),
        blended(channel(under, 3), t as int, layer[3] as int),
    );
}

} // verus!
