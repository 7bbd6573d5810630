use mazetot::color::{is_transparent, Rgba};
use mazetot::textures::{brick_palette, horror_palette, TextureData, TextureManager};

fn texture(w: u32, h: u32, base: u8) -> TextureData {
    let pixels = (0..w * h).map(|i| Rgba::new(base, i as u8, 0, 255)).collect();
    TextureData::from_pixels(pixels, w, h)
}

#[test]
fn from_pixels_keeps_any_buffer_and_counts_empty_sides_as_one() {
    let full = TextureData::from_pixels(vec![Rgba::white(); 6], 3, 2);
    assert!(full.covers(2, 1) && full.covers(9, 9));
    let short = TextureData::from_pixels(vec![Rgba::white(); 5], 3, 2);
    assert!(short.covers(1, 1));
    assert!(!short.covers(2, 1));
    let empty = TextureData::from_pixels(Vec::new(), 0, 0);
    assert_eq!((empty.width(), empty.height()), (1, 1));
    assert!(!empty.covers(0, 0));
    let flat = TextureData::from_pixels(Vec::new(), 0, 4);
    assert_eq!((flat.width(), flat.height()), (1, 4));
}

#[test]
fn a_short_buffer_samples_where_it_reaches() {
    let t = TextureData::from_pixels((0..5).map(|i| Rgba::new(i, 0, 0, 255)).collect(), 3, 2);
    assert_eq!(t.sample(1, 1), Rgba::new(4, 0, 0, 255));
    assert_eq!(t.sample(9, 0), Rgba::new(2, 0, 0, 255));
}

#[test]
fn sampling_clamps_to_the_last_texel() {
    let t = texture(3, 2, 9);
    assert_eq!((t.width(), t.height()), (3, 2));
    assert_eq!(t.sample(1, 1), Rgba::new(9, 4, 0, 255));
    assert_eq!(t.sample(7, 0), Rgba::new(9, 2, 0, 255));
    assert_eq!(t.sample(7, 9), Rgba::new(9, 5, 0, 255));
}

#[test]
fn missing_characters_fall_back_to_the_default_texture() {
    let mut m = TextureManager::new();
    assert_eq!(m.get_pixel_color('+', 0, 0), Rgba::white());
    assert!(m.resolve('+').is_none());
    m.insert('#', texture(2, 2, 1));
    m.insert('+', texture(2, 2, 2));
    assert_eq!(m.get_pixel_color('+', 0, 0).r, 2);
    assert_eq!(m.get_pixel_color('?', 0, 0).r, 1);
    m.insert('+', texture(2, 2, 3));
    assert_eq!(m.get_pixel_color('+', 1, 1), Rgba::new(3, 3, 0, 255));
    assert_eq!(m.resolve('x').unwrap().height(), 2);
}

#[test]
fn transparent_key_ignores_alpha() {
    assert!(is_transparent(Rgba::new(152, 0, 136, 255)));
    assert!(is_transparent(Rgba::new(152, 0, 136, 0)));
    assert!(!is_transparent(Rgba::new(152, 1, 136, 255)));
    assert_eq!(Rgba::transparent_key(), Rgba::new(152, 0, 136, 255));
}

#[test]
fn palettes_per_character() {
    assert_eq!(brick_palette('+'), (Rgba::new(75, 55, 48, 255), Rgba::new(30, 24, 22, 255)));
    assert_eq!(brick_palette('|').0, Rgba::new(48, 58, 60, 255));
    assert_eq!(brick_palette('#').1, Rgba::new(28, 24, 18, 255));
    assert_eq!(horror_palette('3').2, Rgba::new(230, 15, 15, 255));
    assert_eq!(horror_palette('z').2, Rgba::new(230, 200, 60, 255));
}
