use mazetot::color::Rgba;
use mazetot::framebuffer::Framebuffer;

fn pixel(fb: &Framebuffer, x: usize, y: usize) -> [u8; 4] {
    let i = (y * fb.width() as usize + x) * 4;
    let b = fb.as_bytes();
    [b[i], b[i + 1], b[i + 2], b[i + 3]]
}

#[test]
fn starts_black() {
    let fb = Framebuffer::new(3, 2);
    assert_eq!(fb.as_bytes().len(), 24);
    for y in 0..2 {
        for x in 0..3 {
            assert_eq!(pixel(&fb, x, y), [0, 0, 0, 255]);
        }
    }
}

#[test]
fn set_pixel_paints_one_pixel_with_the_current_colour() {
    let mut fb = Framebuffer::new(4, 3);
    fb.set_current_color(Rgba::new(10, 20, 30, 40));
    fb.set_pixel(2, 1);
    assert_eq!(pixel(&fb, 2, 1), [10, 20, 30, 40]);
    assert_eq!(pixel(&fb, 1, 1), [0, 0, 0, 255]);
    assert_eq!(pixel(&fb, 2, 2), [0, 0, 0, 255]);
    // Outside the buffer nothing happens.
    let before = fb.as_bytes().to_vec();
    fb.set_pixel(-1, 0);
    fb.set_pixel(4, 0);
    fb.set_pixel(0, 3);
    assert_eq!(fb.as_bytes(), &before[..]);
}

#[test]
fn fill_rect_is_clipped_to_the_buffer() {
    let mut fb = Framebuffer::new(4, 4);
    fb.set_current_color(Rgba::white());
    fb.fill_rect(-2, 2, 4, 10);
    for y in 0..4 {
        for x in 0..4 {
            let expected = if x < 2 && y >= 2 { [255, 255, 255, 255] } else { [0, 0, 0, 255] };
            assert_eq!(pixel(&fb, x, y), expected, "pixel ({x}, {y})");
        }
    }
}

#[test]
fn empty_or_outside_rects_change_nothing() {
    let mut fb = Framebuffer::new(4, 4);
    fb.set_current_color(Rgba::white());
    let before = fb.as_bytes().to_vec();
    fb.fill_rect(1, 1, 0, 3);
    fb.fill_rect(1, 1, 3, -1);
    fb.fill_rect(10, 10, 2, 2);
    fb.fill_rect(-5, -5, 2, 2);
    assert_eq!(fb.as_bytes(), &before[..]);
}

#[test]
fn clear_uses_the_background_colour() {
    let mut fb = Framebuffer::new(2, 2);
    fb.set_current_color(Rgba::white());
    fb.fill_rect(0, 0, 2, 2);
    fb.set_background_color(Rgba::new(25, 25, 35, 255));
    fb.clear();
    for y in 0..2 {
        for x in 0..2 {
            assert_eq!(pixel(&fb, x, y), [25, 25, 35, 255]);
        }
    }
    assert_eq!((fb.width(), fb.height()), (2, 2));
}
