//! The palette: one colour for every heat level, from near black through
//! red and orange to white.

use crate::grid::NUM_FIRE_COLORS;
use vstd::prelude::*;

verus! {

/// A colour as red, green and blue channels.
#[derive(Clone, Copy, Debug, PartialEq, Eq, Structural)]
pub struct Color {
    pub r: u8,
    pub g: u8,
    pub b: u8,
}

/// One colour for every heat level; entry 0 is "no fire".
pub type FireColorArray = [Color; NUM_FIRE_COLORS];

/// The channels of the palette, three bytes for each heat level: red, green,
/// blue.
pub const FIRE_RGBS: [u8; 111] = [
    0x07, 0x07, 0x07, 0x1F, 0x07, 0x07, 0x2F, 0x0F, 0x07, 0x47, 0x0F, 0x07, 0x57, 0x17, 0x07,
    0x67, 0x1F, 0x07, 0x77, 0x1F, 0x07, 0x8F, 0x27, 0x07, 0x9F, 0x2F, 0x07, 0xAF, 0x3F, 0x07,
    0xBF, 0x47, 0x07, 0xC7, 0x47, 0x07, 0xDF, 0x4F, 0x07, 0xDF, 0x57, 0x07, 0xDF, 0x57, 0x07,
    0xD7, 0x5F, 0x07, 0xD7, 0x5F, 0x07, 0xD7, 0x67, 0x0F, 0xCF, 0x6F, 0x0F, 0xCF, 0x77, 0x0F,
    0xCF, 0x7F, 0x0F, 0xCF, 0x87, 0x17, 0xC7, 0x87, 0x17, 0xC7, 0x8F, 0x17, 0xC7, 0x97, 0x1F,
    0xBF, 0x9F, 0x1F, 0xBF, 0x9F, 0x1F, 0xBF, 0xA7, 0x27, 0xBF, 0xA7, 0x27, 0xBF, 0xAF, 0x2F,
    0xB7, 0xAF, 0x2F, 0xB7, 0xB7, 0x2F, 0xB7, 0xB7, 0x37, 0xCF, 0xCF, 0x6F, 0xDF, 0xDF, 0x9F,
    0xEF, 0xEF, 0xC7, 0xFF, 0xFF, 0xFF,
];

/// The colour that bytes `3 * index`, `3 * index + 1` and `3 * index + 2` of
/// a channel table spell.
pub open spec fn color_at(rgbs: Seq<u8>, index: int) -> Color {
    Color { r: rgbs[3 * index], g: rgbs[3 * index + 1], b: rgbs[3 * index + 2] }
}

/// The palette of the fire: entry `i` is the colour at place `i` of
/// `FIRE_RGBS`.
pub open spec fn fire_palette() -> Seq<Color> {
    Seq::new(NUM_FIRE_COLORS as nat, |i: int| color_at(FIRE_RGBS@, i))
}

/// Builds the palette of the fire from `FIRE_RGBS`.
pub fn setup_fire_array() -> (colors: FireColorArray)
    ensures
        colors@ == fire_palette(),
{
    let mut colors = [Color { r: 0, g: 0, b: 0 };NUM_FIRE_COLORS];
    let mut index: usize = 0;
    while index < NUM_FIRE_COLORS
        invariant
            index <= NUM_FIRE_COLORS,
            forall|i: int| 0 <= i < index ==> colors@[i] == color_at(FIRE_RGBS@, i),
        decreases NUM_FIRE_COLORS - index,
    {
        let red = FIRE_RGBS[3 * index];
        let green = FIRE_RGBS[3 * index + 1];
        let blue = FIRE_RGBS[3 * index + 2];
        colors[index] = Color { r: red, g: green, b: blue };
        index += 1;
    }
    assert(colors@ =~= fire_palette());
    colors
}

/// The palette has 37 entries; the coldest is a near black and the hottest
/// is white.
pub proof fn lemma_fire_palette_ends()
    ensures
        fire_palette().len() == 37,
        fire_palette()[0] == (Color { r: 0x07, g: 0x07, b: 0x07 }),
        fire_palette()[36] == (Color { r: 0xFF, g: 0xFF, b: 0xFF }),
{
    assert(FIRE_RGBS@[0] == 0x07 && FIRE_RGBS@[1] == 0x07 && FIRE_RGBS@[2] == 0x07);
    assert(FIRE_RGBS@[108] == 0xFF && FIRE_RGBS@[109] == 0xFF && FIRE_RGBS@[110] == 0xFF);
}

} // verus!
