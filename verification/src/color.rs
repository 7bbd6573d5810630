use vstd::prelude::*;

verus! {

/// An 8-bit RGBA colour.
#[derive(Clone, Copy, PartialEq, Eq, Structural, Debug)]
pub struct Rgba {
    pub r: u8,
    pub g: u8,
    pub b: u8,
    pub a: u8,
}

pub open spec fn rgba(r: u8, g: u8, b: u8, a: u8) -> Rgba {
    Rgba { r, g, b, a }
}

impl Rgba {
    pub fn new(r: u8, g: u8, b: u8, a: u8) -> (c: Rgba)
        ensures
            c == rgba(r, g, b, a),
    {
        Rgba { r, g, b, a }
    }

    pub fn white() -> (c: Rgba)
        ensures
            c == rgba(255, 255, 255, 255),
    {
        Rgba { r: 255, g: 255, b: 255, a: 255 }
    }

    pub fn black() -> (c: Rgba)
        ensures
            c == rgba(0, 0, 0, 255),
    {
        Rgba { r: 0, g: 0, b: 0, a: 255 }
    }

    /// The colour reserved as "transparent" in sprite textures: a pixel of
    /// this colour is skipped when drawing, letting whatever lies behind
    /// show through (the colour-key technique of classic raycasters without
    /// a real alpha channel).
    pub fn transparent_key() -> (c: Rgba)
        ensures
            c == rgba(152, 0, 136, 255),
    {
        Rgba { r: 152, g: 0, b: 136, a: 255 }
    }
}

/// Whether `color` is the transparent key. Only red, green and blue are
/// compared: decoded images always carry an opaque alpha, so it tells
/// nothing.
pub fn is_transparent(color: Rgba) -> (b: bool)
    ensures
        b == (color.r == 152 && color.g == 0 && color.b == 136),
{
    let key = Rgba::transparent_key();
    color.r == key.r && color.g == key.g && color.b == key.b
}

} // verus!
