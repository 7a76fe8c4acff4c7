//! Colours of the graph: the lane palette (Catppuccin Mocha).
use vstd::prelude::*;

verus! {

/// A colour as 8-bit red, green, blue and alpha.
#[derive(Clone, Copy, PartialEq, Eq, Structural)]
pub struct Rgba {
    pub r: u8,
    pub g: u8,
    pub b: u8,
    pub a: u8,
}

/// How many lane colours there are.
pub const LANE_COLOR_COUNT: usize = 6;

/// The lane colours, in order: blue, pink, green, mauve, yellow, sky.
pub open spec fn lane_palette(i: int) -> (u8, u8, u8) {
    if i == 0 {
        (0x89, 0xb4, 0xfa)
    } else if i == 1 {
        (0xf3, 0x8b, 0xa8)
    } else if i == 2 {
        (0xa6, 0xe3, 0xa1)
    } else if i == 3 {
        (0xcb, 0xa6, 0xf7)
    } else if i == 4 {
        (0xf9, 0xe2, 0xaf)
    } else {
        (0x89, 0xdc, 0xeb)
    }
}

/// An opaque colour.
pub open spec fn opaque(c: (u8, u8, u8)) -> Rgba {
    Rgba { r: c.0, g: c.1, b: c.2, a: 255 }
}

/// The colour of a lane: the palette, repeating every six lanes.
pub fn lane_color(lane: usize) -> (c: Rgba)
    ensures
        c == opaque(lane_palette((lane % LANE_COLOR_COUNT) as int)),
{
    let i = lane % LANE_COLOR_COUNT;
    if i == 0 {
        Rgba { r: 0x89, g: 0xb4, b: 0xfa, a: 255 }
    } else if i == 1 {
        Rgba { r: 0xf3, g: 0x8b, b: 0xa8, a: 255 }
    } else if i == 2 {
        Rgba { r: 0xa6, g: 0xe3, b: 0xa1, a: 255 }
    } else if i == 3 {
        Rgba { r: 0xcb, g: 0xa6, b: 0xf7, a: 255 }
    } else if i == 4 {
        Rgba { r: 0xf9, g: 0xe2, b: 0xaf, a: 255 }
    } else {
        Rgba { r: 0x89, g: 0xdc, b: 0xeb, a: 255 }
    }
}

/// Lanes six apart share a colour.
pub proof fn law_lane_color_period(lane: int)
    requires
        lane >= 0,
    ensures
        lane_palette((lane + 6) % 6) == lane_palette(lane % 6),
{
}

} // verus!
