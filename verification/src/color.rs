//! The colors that layers get when nobody picked one.
use vstd::prelude::*;

verus! {

/// The color of a seed: three channels spread over the byte range, fully opaque.
pub open spec fn seed_color(seed: int) -> [u8; 4] {
    [
        ((seed * 97 + 53) % 256) as u8,
        ((seed * 151 + 101) % 256) as u8,
        ((seed * 211 + 29) % 256) as u8,
        255u8,
    ]
}

/// The color that a layer gets from its position in the stack. Positions wrap at 16 bits.
pub open spec fn position_color(position: int) -> [u8; 4] {
    seed_color(position % 0x1_0000)
}

/// A color that depends on nothing but the seed.
pub fn random_color_from_seed(seed: u16) -> (color: [u8; 4])
    ensures
        color == seed_color(seed as int),
        color[0] == (seed * 97 + 53) % 256,
        color[1] == (seed * 151 + 101) % 256,
        color[2] == (seed * 211 + 29) % 256,
        color[3] == 255,
{
    let s: u32 = seed as u32;
    [
        ((s * 97 + 53) % 256) as u8,
        ((s * 151 + 101) % 256) as u8,
        ((s * 211 + 29) % 256) as u8,
        255u8,
    ]
}

/// The color of the layer at `position`.
pub(crate) fn color_at_position(position: usize) -> (color: [u8; 4])
    ensures
        color == position_color(position as int),
        color[3] == 255,
{
    random_color_from_seed((position % 0x1_0000) as u16)
}

/// The channels of a seed's color.
pub proof fn colors_follow_the_seed(seed: int)
    ensures
        seed_color(seed)[0] == (seed * 97 + 53) % 256,
        seed_color(seed)[1] == (seed * 151 + 101) % 256,
        seed_color(seed)[2] == (seed * 211 + 29) % 256,
        seed_color(seed)[3] == 255,
{
    let (r, g, b) = ((seed * 97 + 53) % 256, (seed * 151 + 101) % 256, (seed * 211 + 29) % 256);
    assert(0 <= r < 256 && 0 <= g < 256 && 0 <= b < 256);
    assert(seed_color(seed) == [r as u8, g as u8, b as u8, 255u8]);
}

/// The positions of a stack take the colors of the seeds in turn.
pub proof fn positions_take_colors_in_turn(position: int)
    ensures
        0 <= position < 0x1_0000 ==> position_color(position) == seed_color(position),
        position_color(position + 0x1_0000) == position_color(position),
{
    assert((position + 0x1_0000) % 0x1_0000 == position % 0x1_0000);
    if 0 <= position < 0x1_0000 {
        assert(position % 0x1_0000 == position);
    }
}

} // verus!
