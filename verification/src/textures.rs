use std::collections::HashMap;
use vstd::prelude::*;
use crate::color::{Rgba, rgba};

verus! {

broadcast use vstd::std_specs::hash::group_hash_axioms;

/// Texture character used when an impact has no image of its own (for
/// instance a new wall character in the map that has no dedicated texture
/// yet).
pub const FALLBACK_CHAR: char = '#';

/// A texture already decoded into a buffer of colours in memory, row by
/// row, sampled pixel by pixel every frame with a plain index.
pub struct TextureData {
    pixels: Vec<Rgba>,
    width: u32,
    height: u32,
}

impl TextureData {
    /// Both sides are at least one pixel.
    #[verifier::type_invariant]
    spec fn sides_positive(&self) -> bool {
        self.width >= 1 && self.height >= 1
    }

    pub closed spec fn w(&self) -> int {
        self.width as int
    }

    pub closed spec fn h(&self) -> int {
        self.height as int
    }

    pub closed spec fn texels(&self) -> Seq<Rgba> {
        self.pixels@
    }

    /// The colour of texel (x, y).
    pub open spec fn texel(&self, x: int, y: int) -> Rgba {
        self.texels()[y * self.w() + x]
    }

    /// Where texel (tx, ty) sits in the colour buffer once clamped to the
    /// last column and row.
    pub open spec fn clamped_index(&self, tx: int, ty: int) -> int {
        let x = if tx < self.w() { tx } else { self.w() - 1 };
        let y = if ty < self.h() { ty } else { self.h() - 1 };
        y * self.w() + x
    }

    /// The colour buffer holds texel (tx, ty): always so when it has one
    /// colour per pixel, and not for the texels a short buffer lacks.
    pub open spec fn can_sample(&self, tx: int, ty: int) -> bool {
        self.clamped_index(tx, ty) < self.texels().len()
    }

    /// A texture from its colours row by row. A side of zero pixels counts
    /// as one; the buffer is kept as it comes, so an image with fewer
    /// colours than pixels (an empty one) can only be sampled where its
    /// buffer reaches.
    pub fn from_pixels(pixels: Vec<Rgba>, width: u32, height: u32) -> (t: TextureData)
        ensures
            t.w() == (if width == 0 { 1 } else { width as int }),
            t.h() == (if height == 0 { 1 } else { height as int }),
            t.texels() == pixels@,
    {
        let width = if width == 0 { 1 } else { width };
        let height = if height == 0 { 1 } else { height };
        TextureData { pixels, width, height }
    }

    pub fn width(&self) -> (w: u32)
        ensures
            w == self.w(),
            w >= 1,
    {
        proof {
            use_type_invariant(self);
        }
        self.width
    }

    /// Height in pixels of the source texture. Whoever draws a much
    /// enlarged sprite can tell from it how many screen rows share a texel.
    pub fn height(&self) -> (h: u32)
        ensures
            h == self.h(),
            h >= 1,
    {
        proof {
            use_type_invariant(self);
        }
        self.height
    }

    /// Whether the colour buffer holds texel (tx, ty), clamped.
    pub fn covers(&self, tx: u32, ty: u32) -> (b: bool)
        ensures
            b == self.can_sample(tx as int, ty as int),
    {
        proof {
            use_type_invariant(self);
        }
        let x = if tx < self.width { tx } else { self.width - 1 };
        let y = if ty < self.height { ty } else { self.height - 1 };
        proof {
            assert((y as int) * (self.width as int) <= 0xffff_ffff * 0xffff_ffff) by (nonlinear_arith)
                requires
                    y <= 0xffff_ffff,
                    self.width <= 0xffff_ffff,
            ;
        }
        (y as u64) * (self.width as u64) + (x as u64) < self.pixels.len() as u64
    }

    /// Colour of texel (tx, ty), clamped to the last column and row.
    pub fn sample(&self, tx: u32, ty: u32) -> (c: Rgba)
        requires
            self.can_sample(tx as int, ty as int),
        ensures
            c == self.texels()[self.clamped_index(tx as int, ty as int)],
            c == self.texel(
                if tx < self.w() { tx as int } else { self.w() - 1 },
                if ty < self.h() { ty as int } else { self.h() - 1 },
            ),
    {
        proof {
            use_type_invariant(self);
        }
        let x = if tx < self.width { tx } else { self.width - 1 };
        let y = if ty < self.height { ty } else { self.height - 1 };
        proof {
            assert((y as int) * (self.width as int) <= (y as int) * (self.width as int) + (x as int));
            assert(self.pixels.len() == self.pixels@.len());
        }
        self.pixels[(y as usize) * (self.width as usize) + (x as usize)]
    }
}

/// The textures in memory, one per character (walls and sprites share the
/// same table), with the fallback texture standing in for characters that
/// have none. The table is keyed by the character's code point.
pub struct TextureManager {
    textures: HashMap<u32, TextureData>,
}

/// The key of `ch` in the texture table.
spec fn texture_key(ch: char) -> u32 {
    ch as u32
}

impl TextureManager {
    /// Whether `ch` has a texture of its own.
    pub closed spec fn has(&self, ch: char) -> bool {
        self.textures@.contains_key(texture_key(ch))
    }

    /// The texture of `ch` (meaningful when `has(ch)`).
    pub closed spec fn texture_of(&self, ch: char) -> TextureData {
        self.textures@[texture_key(ch)]
    }

    pub fn new() -> (m: Self)
        ensures
            forall|ch: char| !m.has(ch),
    {
        TextureManager { textures: HashMap::new() }
    }

    /// Gives `ch` the texture `tex`, replacing the one it had.
    pub fn insert(&mut self, ch: char, tex: TextureData)
        ensures
            final(self).has(ch),
            final(self).texture_of(ch) == tex,
            forall|c: char| c != ch ==> (final(self).has(c) == old(self).has(c)),
            forall|c: char| c != ch && old(self).has(c) ==> final(self).texture_of(c) == old(self).texture_of(c),
    {
        self.textures.insert(ch as u32, tex);
        proof {
            assert forall|c: char| c != ch implies texture_key(c) != texture_key(ch) by {
                vstd::utf8::char_u32_cast(c, c as u32);
                vstd::utf8::char_u32_cast(ch, ch as u32);
            }
        }
    }

    /// The texture of `ch` in the table, if it has one.
    fn lookup(&self, ch: char) -> (r: Option<&TextureData>)
        ensures
            r is None <==> !self.has(ch),
            r matches Some(t) ==> *t == self.texture_of(ch),
    {
        self.textures.get(&(ch as u32))
    }

    /// The texture of `ch`, falling back to the texture of `#` when `ch`
    /// has none; resolved once, it serves many samples without repeating
    /// the lookup.
    pub fn resolve(&self, ch: char) -> (r: Option<&TextureData>)
        ensures
            self.has(ch) ==> r == Some(&self.texture_of(ch)),
            !self.has(ch) && self.has(FALLBACK_CHAR) ==> r == Some(&self.texture_of(FALLBACK_CHAR)),
            !self.has(ch) && !self.has(FALLBACK_CHAR) ==> r is None,
    {
        match self.lookup(ch) {
            Some(t) => Some(t),
            None => self.lookup(FALLBACK_CHAR),
        }
    }

    /// Colour of texel (tx, ty) of the texture for `ch` (or the fallback);
    /// white when there is no texture at all, so that drawing never fails.
    /// The texture used has to hold that texel.
    pub fn get_pixel_color(&self, ch: char, tx: u32, ty: u32) -> (c: Rgba)
        requires
            self.has(ch) ==> self.texture_of(ch).can_sample(tx as int, ty as int),
            !self.has(ch) && self.has(FALLBACK_CHAR) ==> self.texture_of(FALLBACK_CHAR).can_sample(tx as int, ty as int),
        ensures
            ({
                let t = if self.has(ch) { self.texture_of(ch) } else { self.texture_of(FALLBACK_CHAR) };
                if self.has(ch) || self.has(FALLBACK_CHAR) {
                    c == t.texel(
                        if tx < t.w() { tx as int } else { t.w() - 1 },
                        if ty < t.h() { ty as int } else { t.h() - 1 },
                    )
                } else {
                    c == rgba(255, 255, 255, 255)
                }
            }),
    {
        match self.resolve(ch) {
            Some(t) => t.sample(tx, ty),
            None => Rgba::white(),
        }
    }
}

/// Brick and mortar colours of the placeholder wall texture for `ch`: damp
/// brick for corners, dirty stone for horizontal walls, cold stone for
/// vertical ones, old earth for anything else.
pub fn brick_palette(ch: char) -> (p: (Rgba, Rgba))
    ensures
        p == (if ch == '+' {
            (rgba(75, 55, 48, 255), rgba(30, 24, 22, 255))
        } else if ch == '-' {
            (rgba(55, 58, 56, 255), rgba(22, 24, 23, 255))
        } else if ch == '|' {
            (rgba(48, 58, 60, 255), rgba(18, 24, 25, 255))
        } else {
            (rgba(70, 62, 48, 255), rgba(28, 24, 18, 255))
        }),
{
    if ch == '+' {
        (Rgba::new(75, 55, 48, 255), Rgba::new(30, 24, 22, 255))
    } else if ch == '-' {
        (Rgba::new(55, 58, 56, 255), Rgba::new(22, 24, 23, 255))
    } else if ch == '|' {
        (Rgba::new(48, 58, 60, 255), Rgba::new(18, 24, 25, 255))
    } else {
        (Rgba::new(70, 62, 48, 255), Rgba::new(28, 24, 18, 255))
    }
}

/// Body, edge, eye glow and eye core colours of a placeholder hooded
/// figure: the enemy (any view or pose) is almost black with bright red
/// eyes; any other figure has amber eyes to tell it apart.
pub fn horror_palette(ch: char) -> (p: (Rgba, Rgba, Rgba, Rgba))
    ensures
        p == (if ch == 'e' || ch == 'b' || ch == '1' || ch == '2' || ch == '3' || ch == '4' {
            (rgba(12, 10, 15, 255), rgba(28, 22, 30, 255), rgba(230, 15, 15, 255), rgba(255, 210, 200, 255))
        } else {
            (rgba(20, 18, 22, 255), rgba(40, 34, 40, 255), rgba(230, 200, 60, 255), rgba(255, 240, 200, 255))
        }),
{
    if ch == 'e' || ch == 'b' || ch == '1' || ch == '2' || ch == '3' || ch == '4' {
        (
            Rgba::new(12, 10, 15, 255),
            Rgba::new(28, 22, 30, 255),
            Rgba::new(230, 15, 15, 255),
            Rgba::new(255, 210, 200, 255),
        )
    } else {
        (
            Rgba::new(20, 18, 22, 255),
            Rgba::new(40, 34, 40, 255),
            Rgba::new(230, 200, 60, 255),
            Rgba::new(255, 240, 200, 255),
        )
    }
}

} // verus!
