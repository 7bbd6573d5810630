use vstd::prelude::*;
use crate::color::Rgba;
use crate::framebuffer::Framebuffer;
use crate::maze::Maze;

verus! {

/// The colour the map from above gives cell (x, y): `wall` for walls (and
/// lockers), `goal` for the exit, none for floor and the other markers.
pub open spec fn cell_colour(maze: Maze, x: int, y: int, wall: Rgba, goal: Rgba) -> Option<Rgba> {
    if maze.wall_at(x, y) {
        Some(wall)
    } else if maze.cell(x, y) == 'g' {
        Some(goal)
    } else {
        None
    }
}

/// The cell of the map drawn with its corner at (`ox`, `oy`) and `block`
/// pixels to a side that covers pixel (px, py), if any.
pub open spec fn covered(maze: Maze, ox: int, oy: int, block: int, px: int, py: int) -> bool {
    &&& ox <= px
    &&& oy <= py
    &&& (px - ox) / block < maze.cols()
    &&& (py - oy) / block < maze.rows()
}

/// Pixel (px, py), `before` the map was drawn over it.
pub open spec fn map_pixel(
    maze: Maze,
    ox: int,
    oy: int,
    block: int,
    wall: Rgba,
    goal: Rgba,
    px: int,
    py: int,
    before: Rgba,
) -> Rgba {
    if covered(maze, ox, oy, block, px, py) {
        match cell_colour(maze, (px - ox) / block, (py - oy) / block, wall, goal) {
            Some(c) => c,
            None => before,
        }
    } else {
        before
    }
}

/// Cell (cx, cy) comes before cell (x, y) in reading order.
spec fn cell_before(cx: int, cy: int, x: int, y: int) -> bool {
    cy < y || (cy == y && cx < x)
}

/// A pixel lies in the `block`-wide column `k` from `o` exactly when its
/// offset from `o`, divided by `block`, is `k`.
proof fn lemma_in_block(o: int, block: int, p: int, k: int)
    by (nonlinear_arith)
    requires
        block > 0,
        k >= 0,
    ensures
        (o + k * block <= p < o + k * block + block) <==> (o <= p && (p - o) / block == k),
{
    if o <= p {
        let d = p - o;
        let q = d / block;
        assert(d == q * block + d % block);
        assert(0 <= d % block < block);
        if q < k {
            assert(q * block + block <= k * block);
        } else if q > k {
            assert(k * block + block <= q * block);
        }
    } else {
        assert(k * block >= 0);
    }
}

proof fn lemma_block_end(k: int, n: int, block: int)
    by (nonlinear_arith)
    requires
        0 <= k < n,
        block > 0,
    ensures
        0 <= k * block,
        k <= k * block,
        k * block + block <= n * block,
{
}

/// Draws the maze from above with its corner at (`ox`, `oy`), each cell a
/// `block` by `block` square: walls in `wall`, the exit in `goal`, floor
/// and markers left as they were. The drawing colour is left as it was.
pub fn draw_maze(fb: &mut Framebuffer, maze: &Maze, ox: i32, oy: i32, block: i32, wall: Rgba, goal: Rgba)
    requires
        old(fb).wf(),
        block > 0,
        0 <= ox,
        0 <= oy,
        ox + maze.cols() * block <= i32::MAX,
        oy + maze.rows() * block <= i32::MAX,
    ensures
        final(fb).wf(),
        final(fb).w() == old(fb).w(),
        final(fb).h() == old(fb).h(),
        final(fb).background() == old(fb).background(),
        final(fb).current() == old(fb).current(),
        forall|px: int, py: int| old(fb).in_bounds(px, py) ==> #[trigger] final(fb).pixel(px, py) == map_pixel(
            *maze,
            ox as int,
            oy as int,
            block as int,
            wall,
            goal,
            px,
            py,
            old(fb).pixel(px, py),
        ),
{
    let saved = fb.current_color();
    let height = maze.height();
    let width = maze.width();
    let ghost b = block as int;
    let mut y: usize = 0;
    while y < height
        invariant
            fb.wf(),
            fb.w() == old(fb).w(),
            fb.h() == old(fb).h(),
            fb.background() == old(fb).background(),
            height == maze.rows(),
            width == maze.cols(),
            y <= height,
            b == block,
            block > 0,
            0 <= ox,
            0 <= oy,
            ox + maze.cols() * block <= i32::MAX,
            oy + maze.rows() * block <= i32::MAX,
            forall|px: int, py: int| old(fb).in_bounds(px, py) ==> #[trigger] fb.pixel(px, py) == (if covered(
                *maze,
                ox as int,
                oy as int,
                b,
                px,
                py,
            ) && cell_before((px - ox) / b, (py - oy) / b, 0, y as int) {
                map_pixel(*maze, ox as int, oy as int, b, wall, goal, px, py, old(fb).pixel(px, py))
            } else {
                old(fb).pixel(px, py)
            }),
        decreases height - y,
    {
        proof {
            lemma_block_end(y as int, height as int, b);
            assert((y as i32) as int == y);
        }
        let y0 = oy + (y as i32) * block;
        let mut x: usize = 0;
        while x < width
            invariant
                fb.wf(),
                fb.w() == old(fb).w(),
                fb.h() == old(fb).h(),
                fb.background() == old(fb).background(),
                height == maze.rows(),
                width == maze.cols(),
                y < height,
                x <= width,
                b == block,
                block > 0,
                0 <= ox,
                0 <= oy,
                ox + maze.cols() * block <= i32::MAX,
                oy + maze.rows() * block <= i32::MAX,
                y0 == oy + y * block,
                y0 + block <= i32::MAX,
                forall|px: int, py: int| old(fb).in_bounds(px, py) ==> #[trigger] fb.pixel(px, py) == (if covered(
                    *maze,
                    ox as int,
                    oy as int,
                    b,
                    px,
                    py,
                ) && cell_before((px - ox) / b, (py - oy) / b, x as int, y as int) {
                    map_pixel(*maze, ox as int, oy as int, b, wall, goal, px, py, old(fb).pixel(px, py))
                } else {
                    old(fb).pixel(px, py)
                }),
            decreases width - x,
        {
            proof {
                lemma_block_end(x as int, width as int, b);
                assert((x as i32) as int == x);
            }
            let x0 = ox + (x as i32) * block;
            let colour = if maze.is_wall(x, y) {
                Some(wall)
            } else if maze.get(x, y) == 'g' {
                Some(goal)
            } else {
                None
            };
            let ghost before = *fb;
            match colour {
                Some(c) => {
                    fb.set_current_color(c);
                    fb.fill_rect(x0, y0, block, block);
                },
                None => {},
            }
            proof {
                assert forall|px: int, py: int| old(fb).in_bounds(px, py) implies #[trigger] fb.pixel(px, py) == (if covered(
                    *maze,
                    ox as int,
                    oy as int,
                    b,
                    px,
                    py,
                ) && cell_before((px - ox) / b, (py - oy) / b, x + 1, y as int) {
                    map_pixel(*maze, ox as int, oy as int, b, wall, goal, px, py, old(fb).pixel(px, py))
                } else {
                    old(fb).pixel(px, py)
                }) by {
                    lemma_in_block(ox as int, b, px, x as int);
                    lemma_in_block(oy as int, b, py, y as int);
                    assert(before.pixel(px, py) == (if covered(*maze, ox as int, oy as int, b, px, py)
                        && cell_before((px - ox) / b, (py - oy) / b, x as int, y as int) {
                        map_pixel(*maze, ox as int, oy as int, b, wall, goal, px, py, old(fb).pixel(px, py))
                    } else {
                        old(fb).pixel(px, py)
                    }));
                }
            }
            x = x + 1;
        }
        proof {
            assert forall|px: int, py: int| old(fb).in_bounds(px, py) implies #[trigger] fb.pixel(px, py) == (if covered(
                *maze,
                ox as int,
                oy as int,
                b,
                px,
                py,
            ) && cell_before((px - ox) / b, (py - oy) / b, 0, y + 1) {
                map_pixel(*maze, ox as int, oy as int, b, wall, goal, px, py, old(fb).pixel(px, py))
            } else {
                old(fb).pixel(px, py)
            }) by {
                assert(fb.pixel(px, py) == (if covered(*maze, ox as int, oy as int, b, px, py)
                    && cell_before((px - ox) / b, (py - oy) / b, width as int, y as int) {
                    map_pixel(*maze, ox as int, oy as int, b, wall, goal, px, py, old(fb).pixel(px, py))
                } else {
                    old(fb).pixel(px, py)
                }));
            }
        }
        y = y + 1;
    }
    proof {
        assert forall|px: int, py: int| old(fb).in_bounds(px, py) implies #[trigger] fb.pixel(px, py) == map_pixel(
            *maze,
            ox as int,
            oy as int,
            b,
            wall,
            goal,
            px,
            py,
            old(fb).pixel(px, py),
        ) by {
            if covered(*maze, ox as int, oy as int, b, px, py) {
                assert(cell_before((px - ox) / b, (py - oy) / b, 0, y as int));
            }
        }
    }
    let ghost drawn = *fb;
    fb.set_current_color(saved);
    proof {
        assert forall|px: int, py: int| old(fb).in_bounds(px, py) implies #[trigger] fb.pixel(px, py) == drawn.pixel(px, py) by {}
    }
}

/// The map paints every cell of the grid (each of the widest row's columns
/// on each row) as a `block` by `block` square from (`ox`, `oy`): a pixel of
/// the square of cell (cx, cy) takes the wall colour when the cell holds a
/// wall glyph `+`, `-`, `|` or a locker `l`, the exit colour when it holds
/// `g`, and is left as it was otherwise.
pub proof fn lemma_map_paints_each_cell(
    maze: Maze,
    ox: int,
    oy: int,
    block: int,
    wall: Rgba,
    goal: Rgba,
    cx: int,
    cy: int,
    px: int,
    py: int,
    before: Rgba,
)
    requires
        block > 0,
        0 <= cx < maze.cols(),
        0 <= cy < maze.rows(),
        ox + cx * block <= px < ox + cx * block + block,
        oy + cy * block <= py < oy + cy * block + block,
    ensures
        ({
            let c = maze.cell(cx, cy);
            map_pixel(maze, ox, oy, block, wall, goal, px, py, before) == (if c == '+' || c == '-' || c == '|'
                || c == 'l' {
                wall
            } else if c == 'g' {
                goal
            } else {
                before
            })
        }),
{
    lemma_in_block(ox, block, px, cx);
    lemma_in_block(oy, block, py, cy);
}

/// Pixels outside the grid's squares are left as they were.
pub proof fn lemma_map_leaves_the_rest(
    maze: Maze,
    ox: int,
    oy: int,
    block: int,
    wall: Rgba,
    goal: Rgba,
    px: int,
    py: int,
    before: Rgba,
)
    requires
        block > 0,
        !(ox <= px < ox + maze.cols() * block && oy <= py < oy + maze.rows() * block),
    ensures
        map_pixel(maze, ox, oy, block, wall, goal, px, py, before) == before,
{
    if ox <= px && oy <= py {
        let cx = (px - ox) / block;
        let cy = (py - oy) / block;
        if cx < maze.cols() && cy < maze.rows() {
            lemma_in_block(ox, block, px, cx);
            lemma_in_block(oy, block, py, cy);
            lemma_block_end(cx, maze.cols() as int, block);
            lemma_block_end(cy, maze.rows() as int, block);
        }
    }
}

} // verus!
