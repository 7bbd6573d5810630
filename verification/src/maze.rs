use vstd::prelude::*;

verus! {

/// A grid coordinate (column, row), in cells rather than pixels.
pub type Cell = (usize, usize);

/// Characters that block movement: the three wall glyphs and the locker,
/// which is a solid piece of furniture set into the wall.
pub open spec fn is_wall_char(c: char) -> bool {
    c == '+' || c == '-' || c == '|' || c == 'l'
}

/// Longest row of a grid (0 for a grid without rows).
pub open spec fn max_row_len(rows: Seq<Seq<char>>) -> nat
    decreases rows.len(),
{
    if rows.len() == 0 {
        0
    } else {
        let m = max_row_len(rows.drop_last());
        if rows.last().len() > m {
            rows.last().len()
        } else {
            m
        }
    }
}

/// `a` comes strictly before `b` when the grid is read row by row.
pub open spec fn row_major_lt(a: Cell, b: Cell) -> bool {
    a.1 < b.1 || (a.1 == b.1 && a.0 < b.0)
}

/// A line as it was written before its line break: a carriage return right
/// before the break (a CRLF file) belongs to the break, not to the line.
pub open spec fn without_cr(line: Seq<char>) -> Seq<char> {
    if line.len() > 0 && line.last() == '\r' {
        line.drop_last()
    } else {
        line
    }
}

/// Reading `text` from the start: the lines already closed by a line break,
/// and the line still open after the last break.
pub open spec fn scan_lines(text: Seq<char>) -> (Seq<Seq<char>>, Seq<char>)
    decreases text.len(),
{
    if text.len() == 0 {
        (Seq::empty(), Seq::empty())
    } else {
        let (closed, open) = scan_lines(text.drop_last());
        if text.last() == '\n' {
            (closed.push(without_cr(open)), Seq::empty())
        } else {
            (closed, open.push(text.last()))
        }
    }
}

/// The rows of a maze file: one per line, split at `\n` (a `\r` before it
/// dropped); the last line counts even without a break after it, and a
/// break at the very end starts no further row.
pub open spec fn text_rows(text: Seq<char>) -> Seq<Seq<char>> {
    let (closed, open) = scan_lines(text);
    if open.len() == 0 {
        closed
    } else {
        closed.push(open)
    }
}

/// A maze is a grid of characters, one per cell:
/// `+ - |` are walls, ` ` is floor, `p` the player's start, `g` the goal,
/// `t` a totem, `e` an enemy spawn and `l` a locker. Rows may differ in
/// length: the missing tail of a short row reads as floor.
pub struct Maze {
    cells: Vec<Vec<char>>,
}

impl View for Maze {
    type V = Seq<Seq<char>>;

    closed spec fn view(&self) -> Seq<Seq<char>> {
        self.cells@.map_values(|r: Vec<char>| r@)
    }
}

impl Maze {
    /// Number of rows.
    pub open spec fn rows(self) -> nat {
        self@.len()
    }

    /// Length of the longest row.
    pub open spec fn cols(self) -> nat {
        max_row_len(self@)
    }

    /// The character at column `x`, row `y`; floor outside the grid or past
    /// the end of a short row.
    pub open spec fn cell(self, x: int, y: int) -> char {
        if 0 <= y < self@.len() && 0 <= x < self@[y].len() {
            self@[y][x]
        } else {
            ' '
        }
    }

    pub open spec fn wall_at(self, x: int, y: int) -> bool {
        is_wall_char(self.cell(x, y))
    }

    /// The character `target` is written at `c` (a real position of a row,
    /// not the floor that pads a short row).
    pub open spec fn holds(self, c: Cell, target: char) -> bool {
        &&& c.1 < self@.len()
        &&& c.0 < self@[c.1 as int].len()
        &&& self@[c.1 as int][c.0 as int] == target
    }

    /// Floor at the pixel (px, py) of the world, cells being `block_size`
    /// pixels wide: the pixel lies on the non-negative side of both axes
    /// and its cell is not a wall.
    pub open spec fn open_pixel(self, px: int, py: int, block_size: int) -> bool {
        px >= 0 && py >= 0 && !self.wall_at(px / block_size, py / block_size)
    }

    /// The grid's extent fits the machine's index type.
    pub proof fn lemma_bounded(self)
        ensures
            self.rows() <= usize::MAX,
            forall|y: int| 0 <= y < self.rows() ==> #[trigger] self@[y].len() <= usize::MAX,
            self.cols() <= usize::MAX,
    {
        assert forall|y: int| 0 <= y < self.rows() implies #[trigger] self@[y].len() <= usize::MAX by {
            assert(self@[y] == self.cells@[y]@);
            assert(self.cells@[y].len() == self.cells@[y]@.len());
        }
        assert(self.cells.len() == self.cells@.len());
        lemma_max_row_len(self@);
    }

    pub fn new(cells: Vec<Vec<char>>) -> (maze: Self)
        ensures
            maze@ == cells@.map_values(|r: Vec<char>| r@),
    {
        Maze { cells }
    }

    /// Number of rows.
    pub fn height(&self) -> (h: usize)
        ensures
            h == self.rows(),
    {
        self.cells.len()
    }

    /// Number of columns of the longest row: a file may carry short lines
    /// because editors strip trailing spaces.
    pub fn width(&self) -> (w: usize)
        ensures
            w == self.cols(),
            forall|y: int| 0 <= y < self.rows() ==> #[trigger] self@[y].len() <= w,
            self.rows() == 0 ==> w == 0,
            self.rows() > 0 ==> exists|y: int| 0 <= y < self.rows() && #[trigger] self@[y].len() == w,
    {
        let mut w: usize = 0;
        let mut y: usize = 0;
        while y < self.cells.len()
            invariant
                y <= self.cells@.len(),
                self@.len() == self.cells@.len(),
                w == max_row_len(self@.take(y as int)),
            decreases self.cells@.len() - y,
        {
            proof {
                assert(self@.take(y + 1).drop_last() =~= self@.take(y as int));
                assert(self@[y as int] == self.cells@[y as int]@);
            }
            if self.cells[y].len() > w {
                w = self.cells[y].len();
            }
            y = y + 1;
        }
        proof {
            assert(self@.take(y as int) =~= self@);
            lemma_max_row_len(self@);
        }
        w
    }

    /// Character at (x, y). Outside the map, or past the end of a short
    /// row, it reads as floor.
    pub fn get(&self, x: usize, y: usize) -> (c: char)
        ensures
            c == self.cell(x as int, y as int),
    {
        if y < self.cells.len() && x < self.cells[y].len() {
            proof {
                assert(self@[y as int] == self.cells@[y as int]@);
            }
            self.cells[y][x]
        } else {
            proof {
                if y < self.cells@.len() {
                    assert(self@[y as int] == self.cells@[y as int]@);
                }
            }
            ' '
        }
    }

    /// Lockers count as walls: they are solid furniture set into the wall,
    /// not something to walk over. The player stands next to the cell.
    pub fn is_wall(&self, x: usize, y: usize) -> (b: bool)
        ensures
            b == self.wall_at(x as int, y as int),
    {
        let c = self.get(x, y);
        c == '+' || c == '-' || c == '|' || c == 'l'
    }

    /// Whether the cell at column `x`, row `y` (which may lie beyond the
    /// machine's index range, and then is floor) is a wall.
    fn is_wall_wide(&self, x: u64, y: u64) -> (b: bool)
        ensures
            b == self.wall_at(x as int, y as int),
    {
        proof {
            self.lemma_bounded();
        }
        if x > usize::MAX as u64 || y > usize::MAX as u64 {
            proof {
                assert(self.cell(x as int, y as int) == ' ');
            }
            return false;
        }
        self.is_wall(x as usize, y as usize)
    }

    /// Whether a point at pixel (px, py) of the world (whole pixels, cells
    /// being `block_size` pixels wide) lies on floor: on the non-negative
    /// side of both axes and not inside a wall cell.
    pub fn is_open_pixel(&self, px: i64, py: i64, block_size: usize) -> (b: bool)
        requires
            block_size > 0,
        ensures
            b == self.open_pixel(px as int, py as int, block_size as int),
    {
        if px < 0 || py < 0 {
            return false;
        }
        let cx = (px as u64) / (block_size as u64);
        let cy = (py as u64) / (block_size as u64);
        !self.is_wall_wide(cx, cy)
    }

    /// Whether a body whose collision box spans pixels `left..=right` and
    /// `top..=bottom` fits here: all four corners of the box must be on
    /// floor, so that it cannot slip sideways into a wall. Players and
    /// enemies share this test.
    pub fn is_free_box(&self, left: i64, top: i64, right: i64, bottom: i64, block_size: usize) -> (b: bool)
        requires
            block_size > 0,
        ensures
            b == (self.open_pixel(left as int, top as int, block_size as int)
                && self.open_pixel(right as int, top as int, block_size as int)
                && self.open_pixel(left as int, bottom as int, block_size as int)
                && self.open_pixel(right as int, bottom as int, block_size as int)),
    {
        self.is_open_pixel(left, top, block_size) && self.is_open_pixel(right, top, block_size)
            && self.is_open_pixel(left, bottom, block_size) && self.is_open_pixel(right, bottom, block_size)
    }

    /// Every cell holding `target`, as (x, y), in reading order (row by
    /// row, left to right). Used to place spawns marked in the maze file.
    pub fn find_all(&self, target: char) -> (found: Vec<Cell>)
        ensures
            forall|i: int, j: int|
                0 <= i < j < found@.len() ==> row_major_lt(#[trigger] found@[i], #[trigger] found@[j]),
            forall|c: Cell| found@.contains(c) <==> self.holds(c, target),
    {
        let mut found: Vec<Cell> = Vec::new();
        let mut y: usize = 0;
        while y < self.cells.len()
            invariant
                y <= self.cells@.len(),
                self@.len() == self.cells@.len(),
                forall|i: int, j: int|
                    0 <= i < j < found@.len() ==> row_major_lt(#[trigger] found@[i], #[trigger] found@[j]),
                forall|i: int| 0 <= i < found@.len() ==> (#[trigger] found@[i]).1 < y,
                forall|c: Cell| found@.contains(c) <==> (self.holds(c, target) && c.1 < y),
            decreases self.cells@.len() - y,
        {
            let row = &self.cells[y];
            proof {
                assert(self@[y as int] == row@);
            }
            let ghost before = found@;
            let mut x: usize = 0;
            while x < row.len()
                invariant
                    x <= row@.len(),
                    y < self.cells@.len(),
                    self@.len() == self.cells@.len(),
                    self@[y as int] == row@,
                    forall|i: int, j: int|
                        0 <= i < j < found@.len() ==> row_major_lt(#[trigger] found@[i], #[trigger] found@[j]),
                    forall|i: int| 0 <= i < found@.len() ==> row_major_lt(#[trigger] found@[i], (x, y)),
                    forall|c: Cell|
                        found@.contains(c) <==> (self.holds(c, target) && (c.1 < y || (c.1 == y
                            && c.0 < x))),
                decreases row@.len() - x,
            {
                if row[x] == target {
                    let ghost prev = found@;
                    found.push((x, y));
                    proof {
                        assert forall|c: Cell|
                            found@.contains(c) <==> (self.holds(c, target) && (c.1 < y || (c.1 == y
                                && c.0 < x + 1))) by {
                            if found@.contains(c) && c != (x, y) {
                                let k = choose|k: int| 0 <= k < found@.len() && found@[k] == c;
                                assert(prev[k] == c);
                            }
                            if prev.contains(c) {
                                let k = choose|k: int| 0 <= k < prev.len() && prev[k] == c;
                                assert(found@[k] == c);
                            }
                            if c == (x, y) {
                                assert(found@[prev.len() as int] == c);
                            }
                        }
                    }
                } else {
                    proof {
                        assert forall|c: Cell|
                            found@.contains(c) <==> (self.holds(c, target) && (c.1 < y || (c.1 == y
                                && c.0 < x + 1))) by {
                            if c == (x, y) {
                                assert(!self.holds(c, target));
                            }
                        }
                    }
                }
                x = x + 1;
            }
            proof {
                assert forall|c: Cell|
                    found@.contains(c) <==> (self.holds(c, target) && c.1 < y + 1) by {
                    if c.1 == y && self.holds(c, target) {
                        assert(c.0 < x);
                    }
                }
                assert forall|i: int| 0 <= i < found@.len() implies (#[trigger] found@[i]).1 < y
                    + 1 by {
                    assert(row_major_lt(found@[i], (x, y)));
                }
            }
            y = y + 1;
        }
        found
    }

    /// First cell holding `target` in reading order, as (x, y).
    pub fn find(&self, target: char) -> (r: Option<Cell>)
        ensures
            r is None <==> forall|c: Cell| !self.holds(c, target),
            r matches Some(first) ==> self.holds(first, target) && forall|c: Cell|
                #[trigger] self.holds(c, target) && c != first ==> row_major_lt(first, c),
    {
        let all = self.find_all(target);
        if all.len() == 0 {
            proof {
                assert forall|c: Cell| !self.holds(c, target) by {
                    if self.holds(c, target) {
                        assert(all@.contains(c));
                    }
                }
            }
            None
        } else {
            let first = all[0];
            proof {
                assert(all@.contains(first));
                assert forall|c: Cell| #[trigger] self.holds(c, target) && c != first implies row_major_lt(
                    first,
                    c,
                ) by {
                    assert(all@.contains(c));
                    let k = choose|k: int| 0 <= k < all@.len() && all@[k] == c;
                    assert(k != 0);
                }
            }
            Some(first)
        }
    }

    /// The player's starting cell, marked `p`.
    pub fn player_start(&self) -> (r: Option<Cell>)
        ensures
            r is None <==> forall|c: Cell| !self.holds(c, 'p'),
            r matches Some(first) ==> self.holds(first, 'p') && forall|c: Cell|
                #[trigger] self.holds(c, 'p') && c != first ==> row_major_lt(first, c),
    {
        self.find('p')
    }

    /// The goal cell, marked `g`.
    pub fn goal(&self) -> (r: Option<Cell>)
        ensures
            r is None <==> forall|c: Cell| !self.holds(c, 'g'),
            r matches Some(first) ==> self.holds(first, 'g') && forall|c: Cell|
                #[trigger] self.holds(c, 'g') && c != first ==> row_major_lt(first, c),
    {
        self.find('g')
    }
}

/// Every row fits within `max_row_len`, and a non-empty grid has a row that
/// reaches it.
pub proof fn lemma_max_row_len(rows: Seq<Seq<char>>)
    ensures
        forall|y: int| 0 <= y < rows.len() ==> #[trigger] rows[y].len() <= max_row_len(rows),
        rows.len() > 0 ==> exists|y: int| 0 <= y < rows.len() && #[trigger] rows[y].len() == max_row_len(rows),
    decreases rows.len(),
{
    if rows.len() > 0 {
        let init = rows.drop_last();
        lemma_max_row_len(init);
        assert forall|y: int| 0 <= y < rows.len() implies #[trigger] rows[y].len() <= max_row_len(rows) by {
            if y < rows.len() - 1 {
                assert(rows[y] == init[y]);
            }
        }
        if rows.last().len() > max_row_len(init) {
            assert(rows[rows.len() - 1].len() == max_row_len(rows));
        } else if init.len() > 0 {
            let y = choose|y: int| 0 <= y < init.len() && #[trigger] init[y].len() == max_row_len(init);
            assert(rows[y] == init[y]);
        } else {
            assert(rows[0].len() == 0);
        }
    }
}

/// Reads a maze file's text: one row per line, each character a cell.
pub fn parse_maze(text: &str) -> (maze: Maze)
    ensures
        maze@ == text_rows(text@),
{
    let mut rows: Vec<Vec<char>> = Vec::new();
    let mut line: Vec<char> = Vec::new();
    for c in it: text.chars()
        invariant
            it.seq() == text@,
            (rows@.map_values(|r: Vec<char>| r@), line@) == scan_lines(text@.take(it.index() as int)),
    {
        let ghost read = text@.take(it.index() as int);
        proof {
            assert(text@.take(it.index() + 1).drop_last() == read);
        }
        if c == '\n' {
            let n = line.len();
            if n > 0 && line[n - 1] == '\r' {
                line.pop();
            }
            rows.push(line);
            line = Vec::new();
        } else {
            line.push(c);
        }
    }
    proof {
        assert(text@.take(text@.len() as int) == text@);
    }
    let ghost closed = rows@.map_values(|r: Vec<char>| r@);
    if line.len() > 0 {
        rows.push(line);
        proof {
            assert(rows@.map_values(|r: Vec<char>| r@) == closed.push(line@));
        }
    }
    Maze::new(rows)
}

/// A pixel of the world (`block_size` pixels to a cell) is open floor
/// exactly when it lies right of and below the maze's corner and the
/// character of the cell it falls in is not a wall glyph `+`, `-`, `|` or
/// a locker `l`: lockers are as solid as walls, markers are floor, and
/// beyond the written grid is floor. A collision box is free exactly when
/// its four corners are such pixels.
pub proof fn lemma_open_pixel_by_cell(maze: Maze, px: int, py: int, block_size: int)
    requires
        block_size > 0,
    ensures
        ({
            let c = maze.cell(px / block_size, py / block_size);
            maze.open_pixel(px, py, block_size) == (px >= 0 && py >= 0
                && !(c == '+' || c == '-' || c == '|' || c == 'l'))
        }),
{
}

/// Reading on past the last line break through characters that hold no
/// break only lengthens the open line.
proof fn lemma_scan_append(t: Seq<char>, x: Seq<char>)
    requires
        forall|i: int| 0 <= i < x.len() ==> x[i] != '\n',
    ensures
        scan_lines(t + x) == (scan_lines(t).0, scan_lines(t).1 + x),
    decreases x.len(),
{
    if x.len() == 0 {
        assert(t + x == t);
        assert(scan_lines(t).1 + x == scan_lines(t).1);
    } else {
        let xs = x.drop_last();
        lemma_scan_append(t, xs);
        assert((t + x).drop_last() == t + xs);
        assert((t + x).last() == x.last());
        assert((scan_lines(t).1 + xs).push(x.last()) == scan_lines(t).1 + x);
    }
}

/// A text that is empty or ends with a line break leaves no line open.
proof fn lemma_scan_closed(t: Seq<char>)
    requires
        t.len() == 0 || t.last() == '\n',
    ensures
        scan_lines(t).1 == Seq::<char>::empty(),
        text_rows(t) == scan_lines(t).0,
{
}

/// A maze file is read line by line. With the text read so far `t` empty or
/// ending in a line break, and `line` holding no break:
/// - `line` then `\n` adds the row `line` (when `line` does not itself end
///   in a carriage return, which would belong to the break);
/// - `line` then `\r\n` (a CRLF file) adds the row `line`;
/// - a last `line` with no break after it still adds the row `line`, carriage
///   return and all, unless it is empty.
/// An empty text has no rows.
pub proof fn lemma_rows_line_by_line(t: Seq<char>, line: Seq<char>)
    requires
        t.len() == 0 || t.last() == '\n',
        forall|i: int| 0 <= i < line.len() ==> line[i] != '\n',
    ensures
        text_rows(Seq::<char>::empty()) == Seq::<Seq<char>>::empty(),
        line.len() == 0 || line.last() != '\r' ==> text_rows(t + line + seq!['\n']) == text_rows(t).push(line),
        text_rows(t + line + seq!['\r', '\n']) == text_rows(t).push(line),
        line.len() > 0 ==> text_rows(t + line) == text_rows(t).push(line),
{
    lemma_scan_closed(t);
    let (closed, open) = scan_lines(t);
    // the final line, open
    lemma_scan_append(t, line);
    assert(open + line == line);
    // closed by a bare break
    let a = t + line + seq!['\n'];
    assert(a.drop_last() == t + line);
    lemma_scan_closed(a);
    // closed by a carriage return and a break
    let cr = line.push('\r');
    assert forall|i: int| 0 <= i < cr.len() implies cr[i] != '\n' by {
        if i < line.len() {
            assert(cr[i] == line[i]);
        }
    }
    lemma_scan_append(t, cr);
    assert(open + cr == cr);
    let b = t + line + seq!['\r', '\n'];
    assert(b.drop_last() == t + cr);
    assert(cr.drop_last() == line);
    lemma_scan_closed(b);
}

} // verus!
