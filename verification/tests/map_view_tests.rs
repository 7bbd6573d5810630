use mazetot::color::Rgba;
use mazetot::framebuffer::Framebuffer;
use mazetot::map_view::draw_maze;
use mazetot::maze::parse_maze;

fn pixel(fb: &Framebuffer, x: i32, y: i32) -> Rgba {
    let i = ((y * fb.width() + x) * 4) as usize;
    let b = fb.as_bytes();
    Rgba::new(b[i], b[i + 1], b[i + 2], b[i + 3])
}

#[test]
fn the_map_paints_walls_and_the_exit_and_leaves_floor() {
    let maze = parse_maze("+-+\n|g \n");
    let wall = Rgba::new(80, 110, 200, 255);
    let goal = Rgba::new(60, 200, 100, 255);
    let mut fb = Framebuffer::new(12, 8);
    fb.set_current_color(Rgba::new(1, 2, 3, 255));
    draw_maze(&mut fb, &maze, 1, 1, 2, wall, goal);
    // Cell (0, 0) covers pixels 1..3 in both directions.
    assert_eq!(pixel(&fb, 1, 1), wall);
    assert_eq!(pixel(&fb, 2, 2), wall);
    // The exit at cell (1, 1).
    assert_eq!(pixel(&fb, 3, 3), goal);
    assert_eq!(pixel(&fb, 4, 4), goal);
    // Floor at cell (2, 1) and everything outside the map stay black.
    assert_eq!(pixel(&fb, 5, 3), Rgba::black());
    assert_eq!(pixel(&fb, 0, 0), Rgba::black());
    assert_eq!(pixel(&fb, 7, 1), Rgba::black());
    // The drawing colour is left as it was.
    assert_eq!(fb.current_color(), Rgba::new(1, 2, 3, 255));
}
