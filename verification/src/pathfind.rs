use std::collections::HashMap;
use std::collections::VecDeque;
use vstd::prelude::*;
use vstd::set_lib::*;
use crate::maze::{Cell, Maze};

verus! {

broadcast use vstd::std_specs::hash::group_hash_axioms;

/// `b` is one move away from `a`: its orthogonal neighbour to the right
/// (while that stays left of the widest row), to the left, below (while
/// that stays above the last row) or above, and not a wall.
pub open spec fn is_step(maze: Maze, a: Cell, b: Cell) -> bool {
    let x = a.0 as int;
    let y = a.1 as int;
    &&& !maze.wall_at(b.0 as int, b.1 as int)
    &&& {
        ||| (x + 1 < maze.cols() && b.0 == x + 1 && b.1 == y)
        ||| (x > 0 && b.0 == x - 1 && b.1 == y)
        ||| (y + 1 < maze.rows() && b.0 == x && b.1 == y + 1)
        ||| (y > 0 && b.0 == x && b.1 == y - 1)
    }
}

/// The walkable neighbours of `c`, in the order right, left, down, up.
pub open spec fn neighbor_seq(maze: Maze, c: Cell) -> Seq<Cell> {
    let x = c.0 as int;
    let y = c.1 as int;
    let s1: Seq<Cell> = if x + 1 < maze.cols() && !maze.wall_at(x + 1, y) {
        seq![((x + 1) as usize, c.1)]
    } else {
        seq![]
    };
    let s2 = if x > 0 && !maze.wall_at(x - 1, y) {
        s1.push(((x - 1) as usize, c.1))
    } else {
        s1
    };
    let s3 = if y + 1 < maze.rows() && !maze.wall_at(x, y + 1) {
        s2.push((c.0, (y + 1) as usize))
    } else {
        s2
    };
    if y > 0 && !maze.wall_at(x, y - 1) {
        s3.push((c.0, (y - 1) as usize))
    } else {
        s3
    }
}

/// The cell a walk stands on before its `i`-th move.
pub open spec fn step_before(start: Cell, q: Seq<Cell>, i: int) -> Cell {
    if i == 0 {
        start
    } else {
        q[i - 1]
    }
}

/// `q` lists the cells entered, one move at a time, by a walk from `start`
/// (the start itself is not listed).
pub open spec fn is_walk(maze: Maze, start: Cell, q: Seq<Cell>) -> bool {
    forall|i: int| 0 <= i < q.len() ==> is_step(maze, step_before(start, q, i), #[trigger] q[i])
}

/// Where a walk from `start` listing `q` ends.
pub open spec fn walk_end(start: Cell, q: Seq<Cell>) -> Cell {
    if q.len() == 0 {
        start
    } else {
        q.last()
    }
}

/// `q` is a route from `start` to `goal`: a walk that ends at `goal`.
pub open spec fn is_route(maze: Maze, start: Cell, q: Seq<Cell>, goal: Cell) -> bool {
    is_walk(maze, start, q) && walk_end(start, q) == goal
}

/// `q` is a route from `start` to `goal` and no route is shorter.
pub open spec fn is_shortest_route(maze: Maze, start: Cell, q: Seq<Cell>, goal: Cell) -> bool {
    &&& is_route(maze, start, q, goal)
    &&& forall|other: Seq<Cell>| #[trigger] is_route(maze, start, other, goal) ==> q.len() <= other.len()
}

/// The direction of the move from `a` to its neighbour `b`, numbered in the
/// order the search tries them: right 0, left 1, down 2, up 3.
pub open spec fn direction(a: Cell, b: Cell) -> int {
    if b.0 == a.0 + 1 && b.1 == a.1 {
        0
    } else if b.0 + 1 == a.0 && b.1 == a.1 {
        1
    } else if b.0 == a.0 && b.1 == a.1 + 1 {
        2
    } else {
        3
    }
}

/// Walks `p` and `q` from `start` make the same first `i` moves, and at
/// move `i` `p` turns in a direction tried before the one `q` takes.
pub open spec fn parts_earlier(start: Cell, p: Seq<Cell>, q: Seq<Cell>, i: int) -> bool {
    &&& 0 <= i < p.len()
    &&& i < q.len()
    &&& p.take(i) == q.take(i)
    &&& direction(step_before(start, p, i), p[i]) < direction(step_before(start, p, i), q[i])
}

/// `p` comes before `q` when their moves are compared one by one from the
/// start, in the order right, left, down, up.
pub open spec fn precedes(start: Cell, p: Seq<Cell>, q: Seq<Cell>) -> bool {
    exists|i: int| #[trigger] parts_earlier(start, p, q, i)
}

/// `q` is a shortest route from `start` to `goal`, and of all the shortest
/// routes the one that comes first in move order.
pub open spec fn is_first_shortest_route(maze: Maze, start: Cell, q: Seq<Cell>, goal: Cell) -> bool {
    &&& is_shortest_route(maze, start, q, goal)
    &&& forall|other: Seq<Cell>| #[trigger] is_route(maze, start, other, goal) && other.len() == q.len()
        ==> other == q || precedes(start, q, other)
}

/// A route from `start` to `goal` exists.
pub open spec fn reachable(maze: Maze, start: Cell, goal: Cell) -> bool {
    exists|q: Seq<Cell>| #[trigger] is_route(maze, start, q, goal)
}

pub proof fn lemma_neighbor_seq(maze: Maze, c: Cell)
    ensures
        forall|b: Cell| #[trigger] neighbor_seq(maze, c).contains(b) <==> is_step(maze, c, b),
{
    let x = c.0 as int;
    let y = c.1 as int;
    maze.lemma_bounded();
    let s = neighbor_seq(maze, c);
    let s1: Seq<Cell> = if x + 1 < maze.cols() && !maze.wall_at(x + 1, y) {
        seq![((x + 1) as usize, c.1)]
    } else {
        seq![]
    };
    let s2 = if x > 0 && !maze.wall_at(x - 1, y) {
        s1.push(((x - 1) as usize, c.1))
    } else {
        s1
    };
    let s3 = if y + 1 < maze.rows() && !maze.wall_at(x, y + 1) {
        s2.push((c.0, (y + 1) as usize))
    } else {
        s2
    };
    assert(forall|k: int| 0 <= k < s1.len() ==> is_step(maze, c, #[trigger] s1[k]));
    assert(forall|k: int| 0 <= k < s2.len() ==> is_step(maze, c, #[trigger] s2[k]));
    assert(forall|k: int| 0 <= k < s3.len() ==> is_step(maze, c, #[trigger] s3[k]));
    assert(forall|k: int| 0 <= k < s.len() ==> is_step(maze, c, #[trigger] s[k]));
    assert forall|b: Cell| #[trigger] s.contains(b) <==> is_step(maze, c, b) by {
        if s.contains(b) {
            let k = choose|k: int| 0 <= k < s.len() && s[k] == b;
            assert(is_step(maze, c, s[k]));
        }
        if is_step(maze, c, b) {
            if x + 1 < maze.cols() && b.0 == x + 1 && b.1 == y {
                assert(s[0] == b);
            } else if x > 0 && b.0 == x - 1 && b.1 == y {
                let k = if x + 1 < maze.cols() && !maze.wall_at(x + 1, y) { 1int } else { 0int };
                assert(s[k] == b);
            } else if y + 1 < maze.rows() && b.0 == x && b.1 == y + 1 {
                let k1 = if x + 1 < maze.cols() && !maze.wall_at(x + 1, y) { 1int } else { 0int };
                let k = if x > 0 && !maze.wall_at(x - 1, y) { k1 + 1 } else { k1 };
                assert(s[k] == b);
            } else {
                assert(s[s.len() - 1] == b);
            }
        }
    }
}

/// The neighbours of a cell are distinct: each lies in its own direction.
pub proof fn lemma_neighbor_seq_distinct(maze: Maze, c: Cell)
    ensures
        neighbor_seq(maze, c).no_duplicates(),
{
    maze.lemma_bounded();
}

/// The neighbours of a cell come in the order their directions are tried.
proof fn lemma_neighbor_directions(maze: Maze, c: Cell)
    ensures
        forall|a: int, b: int| 0 <= a < b < neighbor_seq(maze, c).len()
            ==> direction(c, #[trigger] neighbor_seq(maze, c)[a]) < direction(c, #[trigger] neighbor_seq(maze, c)[b]),
{
    maze.lemma_bounded();
}

/// Two walks that agree on their first `i` moves stand on the same cell
/// before move `i`.
proof fn lemma_same_prefix_same_cell(start: Cell, p: Seq<Cell>, q: Seq<Cell>, i: int)
    requires
        0 <= i <= p.len(),
        i <= q.len(),
        p.take(i) == q.take(i),
    ensures
        step_before(start, p, i) == step_before(start, q, i),
{
    if i > 0 {
        assert(p[i - 1] == p.take(i)[i - 1]);
        assert(q[i - 1] == q.take(i)[i - 1]);
    }
}

proof fn lemma_precedes_trans(start: Cell, p: Seq<Cell>, q: Seq<Cell>, r: Seq<Cell>)
    requires
        precedes(start, p, q),
        precedes(start, q, r),
    ensures
        precedes(start, p, r),
{
    let i = choose|i: int| #[trigger] parts_earlier(start, p, q, i);
    let j = choose|j: int| #[trigger] parts_earlier(start, q, r, j);
    lemma_same_prefix_same_cell(start, p, q, i);
    lemma_same_prefix_same_cell(start, q, r, j);
    if i < j {
        assert(q.take(i) == q.take(j).take(i));
        assert(r.take(i) == r.take(j).take(i));
        assert(q[i] == q.take(j)[i]);
        assert(r[i] == r.take(j)[i]);
        lemma_same_prefix_same_cell(start, q, r, i);
        assert(parts_earlier(start, p, r, i));
    } else if j < i {
        assert(p.take(j) == p.take(i).take(j));
        assert(q.take(j) == q.take(i).take(j));
        assert(p[j] == p.take(i)[j]);
        assert(q[j] == q.take(i)[j]);
        lemma_same_prefix_same_cell(start, p, q, j);
        assert(parts_earlier(start, p, r, j));
    } else {
        assert(parts_earlier(start, p, r, i));
    }
}

/// Going one more step keeps the order of two walks that already differ.
proof fn lemma_precedes_push(start: Cell, p: Seq<Cell>, q: Seq<Cell>, a: Cell, b: Cell)
    requires
        precedes(start, p, q),
    ensures
        precedes(start, p.push(a), q.push(b)),
{
    let i = choose|i: int| #[trigger] parts_earlier(start, p, q, i);
    assert(p.push(a).take(i) == p.take(i));
    assert(q.push(b).take(i) == q.take(i));
    lemma_same_prefix_same_cell(start, p, p.push(a), i);
    assert(parts_earlier(start, p.push(a), q.push(b), i));
}

/// From the same walk, the step in the earlier direction comes first.
proof fn lemma_push_differs(start: Cell, p: Seq<Cell>, a: Cell, b: Cell)
    requires
        direction(walk_end(start, p), a) < direction(walk_end(start, p), b),
    ensures
        precedes(start, p.push(a), p.push(b)),
{
    let n = p.len() as int;
    assert(p.push(a).take(n) == p);
    assert(p.push(b).take(n) == p);
    assert(step_before(start, p.push(a), n) == walk_end(start, p));
    assert(parts_earlier(start, p.push(a), p.push(b), n));
}

/// A walk extended by one more step is a walk.
proof fn lemma_walk_push(maze: Maze, start: Cell, q: Seq<Cell>, c: Cell)
    requires
        is_walk(maze, start, q),
        is_step(maze, walk_end(start, q), c),
    ensures
        is_walk(maze, start, q.push(c)),
        walk_end(start, q.push(c)) == c,
{
    let r = q.push(c);
    assert forall|i: int| 0 <= i < r.len() implies is_step(maze, step_before(start, r, i), #[trigger] r[i]) by {
        if i < q.len() {
            assert(r[i] == q[i]);
            assert(step_before(start, r, i) == step_before(start, q, i));
        }
    }
}

/// A walk without its last step is a walk.
proof fn lemma_walk_drop_last(maze: Maze, start: Cell, q: Seq<Cell>)
    requires
        is_walk(maze, start, q),
        q.len() > 0,
    ensures
        is_walk(maze, start, q.drop_last()),
        is_step(maze, walk_end(start, q.drop_last()), q.last()),
        q == q.drop_last().push(q.last()),
{
    let p = q.drop_last();
    assert forall|i: int| 0 <= i < p.len() implies is_step(maze, step_before(start, p, i), #[trigger] p[i]) by {
        assert(p[i] == q[i]);
        assert(step_before(start, p, i) == step_before(start, q, i));
    }
    assert(step_before(start, q, q.len() - 1) == walk_end(start, p));
    assert(is_step(maze, step_before(start, q, q.len() - 1), q[q.len() - 1]));
}

/// Walkable cells (right, left, down, up) around `cell`. Public so that the
/// enemy picks where to patrol with the same notion of "free" that the path
/// search uses.
pub fn free_neighbors(maze: &Maze, cell: Cell) -> (result: Vec<Cell>)
    ensures
        result@ == neighbor_seq(*maze, cell),
        forall|b: Cell| #[trigger] result@.contains(b) <==> is_step(*maze, cell, b),
{
    let (x, y) = cell;
    let width = maze.width();
    let height = maze.height();
    let mut result: Vec<Cell> = Vec::with_capacity(4);

    if x < width && x + 1 < width {
        if !maze.is_wall(x + 1, y) {
            result.push((x + 1, y));
        }
    }
    if x > 0 {
        if !maze.is_wall(x - 1, y) {
            result.push((x - 1, y));
        }
    }
    if y < height && y + 1 < height {
        if !maze.is_wall(x, y + 1) {
            result.push((x, y + 1));
        }
    }
    if y > 0 {
        if !maze.is_wall(x, y - 1) {
            result.push((x, y - 1));
        }
    }
    proof {
        assert(result@ =~= neighbor_seq(*maze, cell));
        lemma_neighbor_seq(*maze, cell);
    }
    result
}

/// Key under which a cell is recorded in the search's parent map: the
/// column in the high 64 bits, the row in the low 64 bits.
pub open spec fn ckey(c: Cell) -> u128 {
    (c.0 as int * 0x1_0000_0000_0000_0000 + c.1 as int) as u128
}

fn key_of(c: Cell) -> (k: u128)
    ensures
        k == ckey(c),
{
    (c.0 as u128) * 0x1_0000_0000_0000_0000u128 + (c.1 as u128)
}

proof fn lemma_ckey_injective(a: Cell, b: Cell)
    ensures
        ckey(a) == ckey(b) ==> a == b,
{
    assert(a.0 as int * 0x1_0000_0000_0000_0000 + a.1 as int <= u128::MAX);
    assert(b.0 as int * 0x1_0000_0000_0000_0000 + b.1 as int <= u128::MAX);
}

/// Cells reachable from `start` never leave this box: moving right or down
/// is only possible inside the grid's extent.
spec fn in_box(c: Cell, bx: int, by: int) -> bool {
    c.0 < bx && c.1 < by
}

proof fn lemma_pack(a0: int, a1: int, b0: int, b1: int, w: int)
    by (nonlinear_arith)
    requires
        0 <= a1 < w,
        0 <= b1 < w,
        0 <= a0,
        0 <= b0,
        a0 * w + a1 == b0 * w + b1,
    ensures
        a0 == b0 && a1 == b1,
{
    if a0 < b0 {
        assert(a0 * w + w <= b0 * w);
    } else if b0 < a0 {
        assert(b0 * w + w <= a0 * w);
    }
}

proof fn lemma_pack_bound(a0: int, a1: int, h: int, w: int)
    by (nonlinear_arith)
    requires
        0 <= a0 < h,
        0 <= a1 < w,
    ensures
        0 <= a0 * w + a1 < h * w,
{
    assert(a0 * w <= (h - 1) * w);
}

/// A list of distinct cells inside an `bx` by `by` box holds at most
/// `bx * by` cells.
proof fn lemma_box_count(order: Seq<Cell>, bx: int, by: int)
    requires
        order.no_duplicates(),
        bx >= 1,
        by >= 1,
        forall|i: int| 0 <= i < order.len() ==> in_box(#[trigger] order[i], bx, by),
    ensures
        order.len() <= bx * by,
{
    let f = |c: Cell| c.0 as int * by + c.1 as int;
    let s = order.map_values(f);
    assert forall|i: int, j: int| 0 <= i < s.len() && 0 <= j < s.len() && i != j implies s[i]
        != s[j] by {
        if s[i] == s[j] {
            lemma_pack(order[i].0 as int, order[i].1 as int, order[j].0 as int, order[j].1 as int, by);
            assert(order[i] == order[j]);
        }
    }
    assert(s.no_duplicates());
    s.unique_seq_to_set();
    assert forall|v: int| s.to_set().contains(v) implies set_int_range(0, bx * by).contains(v) by {
        let i = choose|i: int| 0 <= i < s.len() && s[i] == v;
        lemma_pack_bound(order[i].0 as int, order[i].1 as int, bx, by);
    }
    lemma_int_range(0, bx * by);
    lemma_len_subset(s.to_set(), set_int_range(0, bx * by));
}

/// Every move out of `order[i]` lands on a cell already listed, at most one
/// level deeper.
spec fn expanded(maze: Maze, order: Seq<Cell>, level: Seq<int>, i: int) -> bool {
    forall|n: Cell|
        #[trigger] is_step(maze, order[i], n) ==> exists|j: int|
            0 <= j < order.len() && #[trigger] order[j] == n && level[j] <= level[i] + 1
}

proof fn lemma_expanded_push(maze: Maze, order: Seq<Cell>, level: Seq<int>, i: int, c: Cell, l: int)
    requires
        0 <= i < order.len(),
        order.len() == level.len(),
        expanded(maze, order, level, i),
    ensures
        expanded(maze, order.push(c), level.push(l), i),
{
    let o2 = order.push(c);
    let l2 = level.push(l);
    assert forall|n: Cell| #[trigger] is_step(maze, o2[i], n) implies exists|j: int|
        0 <= j < o2.len() && #[trigger] o2[j] == n && l2[j] <= l2[i] + 1 by {
        assert(o2[i] == order[i]);
        let j = choose|j: int| 0 <= j < order.len() && #[trigger] order[j] == n && level[j] <= level[i] + 1;
        assert(o2[j] == order[j]);
    }
}

/// The walk from `start` listing `q` ends on a cell listed in `order` at a
/// level no deeper than the walk's length, as long as every cell shallower
/// than `lim` has been expanded and the walk is no longer than `lim`.
proof fn lemma_walk_levels(
    maze: Maze,
    start: Cell,
    order: Seq<Cell>,
    level: Seq<int>,
    processed: int,
    lim: int,
    q: Seq<Cell>,
)
    requires
        order.len() == level.len(),
        order.len() >= 1,
        order[0] == start,
        level[0] == 0,
        0 <= processed <= order.len(),
        forall|i: int| 0 <= i < processed ==> #[trigger] expanded(maze, order, level, i),
        forall|i: int| 0 <= i < order.len() && #[trigger] level[i] < lim ==> i < processed,
        is_walk(maze, start, q),
        q.len() <= lim,
    ensures
        exists|j: int| 0 <= j < order.len() && #[trigger] order[j] == walk_end(start, q) && level[j] <= q.len(),
    decreases q.len(),
{
    if q.len() == 0 {
        assert(order[0] == walk_end(start, q));
    } else {
        let p = q.drop_last();
        assert forall|i: int| 0 <= i < p.len() implies is_step(maze, step_before(start, p, i), #[trigger] p[i]) by {
            assert(p[i] == q[i]);
            assert(step_before(start, p, i) == step_before(start, q, i));
        }
        lemma_walk_levels(maze, start, order, level, processed, lim, p);
        let j0 = choose|j: int| 0 <= j < order.len() && #[trigger] order[j] == walk_end(start, p) && level[j] <= p.len();
        assert(level[j0] < lim);
        assert(expanded(maze, order, level, j0));
        let last = q.len() - 1;
        assert(step_before(start, q, last) == walk_end(start, p));
        assert(is_step(maze, order[j0], q[last]));
        let j = choose|j: int| 0 <= j < order.len() && #[trigger] order[j] == q[last] && level[j] <= level[j0] + 1;
        assert(order[j] == walk_end(start, q));
    }
}

/// `order[i]` was discovered from `order[par[i]]`, one level deeper, and
/// the parent map records that link.
spec fn tree_link(
    maze: Maze,
    came: Map<u128, Cell>,
    order: Seq<Cell>,
    level: Seq<int>,
    par: Seq<int>,
    i: int,
) -> bool {
    &&& 0 <= par[i] < i
    &&& is_step(maze, order[par[i]], order[i])
    &&& level[i] == level[par[i]] + 1
    &&& came[ckey(order[i])] == order[par[i]]
}

spec fn parent_ok(
    maze: Maze,
    came: Map<u128, Cell>,
    order: Seq<Cell>,
    level: Seq<int>,
    par: Seq<int>,
    head: int,
    i: int,
) -> bool {
    &&& tree_link(maze, came, order, level, par, i)
    &&& par[i] < head
}

/// State of the breadth-first search: `order` lists every cell discovered,
/// in discovery order, with its depth in `level` and the index of the cell
/// it was discovered from in `par`; the first `head` cells have left the
/// queue and the first `done` of them have had their moves explored.
spec fn bfs_inv(
    maze: Maze,
    start: Cell,
    goal: Cell,
    came: Map<u128, Cell>,
    queue: Seq<Cell>,
    order: Seq<Cell>,
    level: Seq<int>,
    par: Seq<int>,
    head: int,
    done: int,
    bx: int,
    by: int,
) -> bool {
    &&& order.len() >= 1
    &&& level.len() == order.len()
    &&& par.len() == order.len()
    &&& order[0] == start
    &&& level[0] == 0
    &&& 0 <= done <= head <= order.len()
    &&& queue == order.subrange(head, order.len() as int)
    &&& order.no_duplicates()
    &&& forall|c: Cell|
        #![trigger came.contains_key(ckey(c))]
        #![trigger order.contains(c)]
        came.contains_key(ckey(c)) <==> order.contains(c)
    &&& came[ckey(start)] == start
    &&& forall|i: int| 0 < i < order.len() ==> #[trigger] parent_ok(maze, came, order, level, par, head, i)
    &&& forall|i: int, j: int| 0 <= i <= j < order.len() ==> #[trigger] level[i] <= #[trigger] level[j]
    &&& forall|i: int| 0 <= i < order.len() ==> #[trigger] level[i] >= 0
    &&& head == 0 ==> order.len() == 1
    &&& head > 0 ==> level[order.len() - 1] <= level[head - 1] + 1
    &&& forall|i: int| 0 <= i < done ==> #[trigger] expanded(maze, order, level, i)
    &&& forall|i: int| 0 <= i < head ==> #[trigger] order[i] != goal
    &&& forall|i: int| 0 <= i < order.len() ==> in_box(#[trigger] order[i], bx, by)
}

/// The route of the search tree to each discovered cell: `tree[i]` reaches
/// `order[i]` in `level[i]` moves through its parent's route. Among cells of
/// one level, those discovered first have the routes that come first, and
/// each tree route comes first among all routes of its length.
#[verifier::opaque]
spec fn tree_order_inv(
    maze: Maze,
    start: Cell,
    order: Seq<Cell>,
    level: Seq<int>,
    par: Seq<int>,
    tree: Seq<Seq<Cell>>,
) -> bool {
    &&& tree.len() == order.len()
    &&& forall|i: int| 0 <= i < order.len() ==> is_route(maze, start, #[trigger] tree[i], order[i])
        && tree[i].len() == level[i]
    &&& forall|i: int| 0 < i < order.len() ==> #[trigger] tree[i] == tree[par[i]].push(order[i])
    &&& forall|i: int, j: int| 0 <= i < j < order.len() && level[i] == level[j]
        ==> precedes(start, #[trigger] tree[i], #[trigger] tree[j])
    &&& forall|i: int, w: Seq<Cell>| 0 <= i < order.len() && #[trigger] is_route(maze, start, w, order[i])
        && w.len() == level[i] ==> w == tree[i] || precedes(start, tree[i], w)
}

/// Discovering `v` from the cell being expanded, `order[h]`, keeps the tree
/// routes in order: every cell shallower than `order[h]` has been expanded,
/// and the cells already discovered from `order[h]` lie in earlier
/// directions than `v`.
proof fn lemma_discover_keeps_order(
    maze: Maze,
    start: Cell,
    order: Seq<Cell>,
    level: Seq<int>,
    par: Seq<int>,
    tree: Seq<Seq<Cell>>,
    h: int,
    nbrs: Seq<Cell>,
    i: int,
)
    requires
        tree_order_inv(maze, start, order, level, par, tree),
        order.len() >= 1,
        level.len() == order.len(),
        par.len() == order.len(),
        order[0] == start,
        level[0] == 0,
        0 <= h < order.len(),
        forall|a: int, b: int| 0 <= a <= b < order.len() ==> #[trigger] level[a] <= #[trigger] level[b],
        forall|k: int| 0 <= k < h ==> #[trigger] expanded(maze, order, level, k),
        forall|x: int| 0 < x < order.len() ==> #[trigger] par[x] <= h && 0 <= par[x] && level[x] == level[par[x]] + 1,
        forall|x: int| 0 < x < order.len() && #[trigger] par[x] == h ==> exists|t: int|
            0 <= t < i && #[trigger] nbrs[t] == order[x],
        nbrs == neighbor_seq(maze, order[h]),
        0 <= i < nbrs.len(),
        !order.contains(nbrs[i]),
        is_step(maze, order[h], nbrs[i]),
    ensures
        tree_order_inv(
            maze,
            start,
            order.push(nbrs[i]),
            level.push(level[h] + 1),
            par.push(h),
            tree.push(tree[h].push(nbrs[i])),
        ),
{
    reveal(tree_order_inv);
    let v = nbrs[i];
    let o2 = order.push(v);
    let l2 = level.push(level[h] + 1);
    let p2 = par.push(h);
    let t2 = tree.push(tree[h].push(v));
    let n = order.len() as int;
    assert(is_route(maze, start, tree[h], order[h]));
    lemma_walk_push(maze, start, tree[h], v);
    lemma_neighbor_directions(maze, order[h]);
    assert forall|x: int| 0 <= x < o2.len() implies is_route(maze, start, #[trigger] t2[x], o2[x]) && t2[x].len() == l2[x] by {
        if x < n {
            assert(is_route(maze, start, tree[x], order[x]));
        }
    }
    assert forall|x: int| 0 < x < o2.len() implies #[trigger] t2[x] == t2[p2[x]].push(o2[x]) by {
        if x < n {
            assert(tree[x] == tree[par[x]].push(order[x]));
        }
    }
    assert forall|a: int, b: int| 0 <= a < b < o2.len() && l2[a] == l2[b] implies precedes(start, #[trigger] t2[a], #[trigger] t2[b]) by {
        if b < n {
            assert(precedes(start, tree[a], tree[b]));
        } else {
            // `a` sits on the new cell's level, discovered from a parent no later than `order[h]`
            assert(a > 0);
            let pa = par[a];
            assert(tree[a] == tree[pa].push(order[a]));
            if pa < h {
                assert(precedes(start, tree[pa], tree[h]));
                lemma_precedes_push(start, tree[pa], tree[h], order[a], v);
            } else {
                let t = choose|t: int| 0 <= t < i && #[trigger] nbrs[t] == order[a];
                assert(direction(order[h], nbrs[t]) < direction(order[h], nbrs[i]));
                assert(walk_end(start, tree[h]) == order[h]);
                lemma_push_differs(start, tree[h], order[a], v);
            }
        }
    }
    assert forall|x: int, w: Seq<Cell>| 0 <= x < o2.len() && #[trigger] is_route(maze, start, w, o2[x])
        && w.len() == l2[x] implies w == t2[x] || precedes(start, t2[x], w) by {
        if x < n {
            assert(is_route(maze, start, w, order[x]));
        } else {
            // a route of the new cell's length arrives from a cell of `order[h]`'s level
            assert(w.len() > 0);
            lemma_walk_drop_last(maze, start, w);
            let wp = w.drop_last();
            assert forall|k: int| 0 <= k < n && #[trigger] level[k] < level[h] implies k < h by {
                if k >= h {
                    assert(level[h] <= level[k]);
                }
            }
            lemma_walk_levels(maze, start, order, level, h, level[h], wp);
            let k = choose|k: int| 0 <= k < n && #[trigger] order[k] == walk_end(start, wp) && level[k] <= wp.len();
            if k < h {
                assert(expanded(maze, order, level, k));
                assert(is_step(maze, order[k], v));
                let j = choose|j: int| 0 <= j < n && #[trigger] order[j] == v && level[j] <= level[k] + 1;
                assert(order.contains(v));
            }
            assert(level[h] <= level[k]);
            assert(is_route(maze, start, wp, order[k]));
            if k > h {
                assert(precedes(start, tree[h], tree[k]));
                if wp != tree[k] {
                    lemma_precedes_trans(start, tree[h], tree[k], wp);
                }
            }
            if wp == tree[h] {
                assert(w == tree[h].push(v));
            } else {
                lemma_precedes_push(start, tree[h], wp, v, v);
            }
        }
    }
}

/// Shortest route between two walkable cells, as the list of cells to
/// enter (the starting cell is not included). Every cell costs the same, so
/// a breadth-first search finds it without the priority queue that
/// weighted searches need. `None` when there is no route (the maze is
/// disconnected, or one of the two cells is a wall).
pub fn find_path(maze: &Maze, start: Cell, goal: Cell) -> (r: Option<Vec<Cell>>)
    ensures
        maze.wall_at(start.0 as int, start.1 as int) || maze.wall_at(goal.0 as int, goal.1 as int)
            ==> r is None,
        !maze.wall_at(start.0 as int, start.1 as int) && !maze.wall_at(goal.0 as int, goal.1 as int)
            ==> (r is Some <==> reachable(*maze, start, goal)),
        r matches Some(p) ==> is_first_shortest_route(*maze, start, p@, goal),
{
    if maze.is_wall(start.0, start.1) || maze.is_wall(goal.0, goal.1) {
        return None;
    }
    if start.0 == goal.0 && start.1 == goal.1 {
        let empty: Vec<Cell> = Vec::new();
        proof {
            assert(is_route(*maze, start, empty@, goal));
            assert forall|other: Seq<Cell>| #[trigger] is_route(*maze, start, other, goal) && other.len() == empty@.len()
                implies other == empty@ || precedes(start, empty@, other) by {
                assert(other =~= empty@);
            }
        }
        return Some(empty);
    }
    let ghost bx: int = if maze.cols() > start.0 + 1 { maze.cols() as int } else { start.0 + 1 };
    let ghost by: int = if maze.rows() > start.1 + 1 { maze.rows() as int } else { start.1 + 1 };

    let mut came_from: HashMap<u128, Cell> = HashMap::new();
    came_from.insert(key_of(start), start);
    let mut queue: VecDeque<Cell> = VecDeque::new();
    queue.push_back(start);

    let ghost mut order: Seq<Cell> = seq![start];
    let ghost mut level: Seq<int> = seq![0int];
    let ghost mut par: Seq<int> = seq![0int];
    let ghost mut head: int = 0;
    let ghost mut tree: Seq<Seq<Cell>> = seq![Seq::<Cell>::empty()];
    proof {
        reveal(tree_order_inv);
        assert(is_route(*maze, start, tree[0], start));
        assert forall|i: int, w: Seq<Cell>| 0 <= i < order.len() && #[trigger] is_route(*maze, start, w, order[i])
            && w.len() == level[i] implies w == tree[i] || precedes(start, tree[i], w) by {
            assert(w =~= tree[i]);
        }
        assert forall|c: Cell| came_from@.contains_key(ckey(c)) <==> order.contains(c) by {
            lemma_ckey_injective(c, start);
            if c == start {
                assert(order[0] == c);
            }
        }
        assert(queue@ =~= order.subrange(head, order.len() as int));
    }

    loop
        invariant
            !maze.wall_at(start.0 as int, start.1 as int),
            !maze.wall_at(goal.0 as int, goal.1 as int),
            start != goal,
            bx == (if maze.cols() > start.0 + 1 { maze.cols() as int } else { start.0 + 1 }),
            by == (if maze.rows() > start.1 + 1 { maze.rows() as int } else { start.1 + 1 }),
            bfs_inv(*maze, start, goal, came_from@, queue@, order, level, par, head, head, bx, by),
            tree_order_inv(*maze, start, order, level, par, tree),
        decreases 2 * (bx * by) - order.len() - head,
    {
        let ghost old_len = order.len();
        let ghost old_head = head;
        let popped = queue.pop_front();
        match popped {
            None => {
                proof {
                    assert(head == order.len());
                    assert forall|q: Seq<Cell>| !#[trigger] is_route(*maze, start, q, goal) by {
                        if is_route(*maze, start, q, goal) {
                            lemma_walk_levels(*maze, start, order, level, order.len() as int, q.len() as int, q);
                            let j = choose|j: int| 0 <= j < order.len() && #[trigger] order[j] == walk_end(start, q) && level[j] <= q.len();
                            assert(order[j] != goal);
                        }
                    }
                }
                return None;
            },
            Some(current) => {
                proof {
                    head = head + 1;
                    assert(current == order[head - 1]);
                }
                if current.0 == goal.0 && current.1 == goal.1 {
                    proof {
                        assert forall|t: int| 0 < t < order.len() implies #[trigger] tree_link(*maze, came_from@, order, level, par, t) by {
                            assert(parent_ok(*maze, came_from@, order, level, par, old_head, t));
                        }
                        assert forall|t: int| 0 <= t < order.len() implies came_from@.contains_key(ckey(#[trigger] order[t])) by {
                            assert(order.contains(order[t]));
                        }
                        reveal(tree_order_inv);
                    }
                    let h: Ghost<int> = Ghost(head - 1);
                    let path = reconstruct(
                        &came_from,
                        start,
                        goal,
                        Ghost(*maze),
                        Ghost(order),
                        Ghost(level),
                        Ghost(par),
                        Ghost(tree),
                        h,
                    );
                    proof {
                        let h = head - 1;
                        assert forall|other: Seq<Cell>| #[trigger] is_route(*maze, start, other, goal) && other.len() == path@.len()
                            implies other == path@ || precedes(start, path@, other) by {
                            assert(is_route(*maze, start, other, order[h]));
                        }
                        assert forall|other: Seq<Cell>| #[trigger] is_route(*maze, start, other, goal) implies path@.len() <= other.len() by {
                            if other.len() < level[h] {
                                assert forall|i: int| 0 <= i < order.len() && #[trigger] level[i] < level[h] implies i < h by {
                                    if i >= h {
                                        assert(level[h] <= level[i]);
                                    }
                                }
                                lemma_walk_levels(*maze, start, order, level, h, level[h], other);
                                let j = choose|j: int| 0 <= j < order.len() && #[trigger] order[j] == walk_end(start, other) && level[j] <= other.len();
                                assert(order[j] == order[h]);
                            }
                        }
                    }
                    return Some(path);
                }
                proof {
                    assert(current != goal);
                    assert(queue@ =~= order.subrange(head, order.len() as int));
                    assert forall|t: int| 0 < t < order.len() implies #[trigger] parent_ok(*maze, came_from@, order, level, par, head, t) by {
                        assert(parent_ok(*maze, came_from@, order, level, par, old_head, t));
                    }
                    if old_head > 0 {
                        assert(level[old_head - 1] <= level[old_head]);
                    }
                    assert forall|t: int| 0 <= t < head implies #[trigger] order[t] != goal by {
                        if t < old_head {
                            assert(order[t] != goal);
                        }
                    }
                    assert forall|x: int| 0 < x < order.len() implies #[trigger] par[x] != head - 1 by {
                        assert(parent_ok(*maze, came_from@, order, level, par, old_head, x));
                    }
                }
                let nbrs = free_neighbors(maze, current);
                let mut i: usize = 0;
                while i < nbrs.len()
                    invariant
                        !maze.wall_at(start.0 as int, start.1 as int),
                        !maze.wall_at(goal.0 as int, goal.1 as int),
                        start != goal,
                        bx == (if maze.cols() > start.0 + 1 { maze.cols() as int } else { start.0 + 1 }),
                        by == (if maze.rows() > start.1 + 1 { maze.rows() as int } else { start.1 + 1 }),
                        head >= 1,
                        head == old_head + 1,
                        current == order[head - 1],
                        bfs_inv(*maze, start, goal, came_from@, queue@, order, level, par, head, head - 1, bx, by),
                        i <= nbrs@.len(),
                        forall|b: Cell| #[trigger] nbrs@.contains(b) <==> is_step(*maze, current, b),
                        forall|t: int| 0 <= t < i ==> exists|j: int|
                            0 <= j < order.len() && #[trigger] order[j] == #[trigger] nbrs@[t] && level[j] <= level[head - 1] + 1,
                        order.len() >= old_len,
                        nbrs@ == neighbor_seq(*maze, current),
                        tree_order_inv(*maze, start, order, level, par, tree),
                        forall|x: int| 0 < x < order.len() && #[trigger] par[x] == head - 1 ==> exists|t: int|
                            0 <= t < i && #[trigger] nbrs@[t] == order[x],
                    decreases nbrs@.len() - i,
                {
                    let next = nbrs[i];
                    let k = key_of(next);
                    proof {
                        assert(nbrs@.contains(next));
                    }
                    if !came_from.contains_key(&k) {
                        let ghost o0 = order;
                        let ghost l0 = level;
                        let ghost p0 = par;
                        let ghost c0 = came_from@;
                        let ghost t0 = tree;
                        proof {
                            let h = head - 1;
                            assert(!o0.contains(next));
                            assert forall|x: int| 0 < x < o0.len() implies #[trigger] p0[x] <= h && 0 <= p0[x]
                                && l0[x] == l0[p0[x]] + 1 by {
                                assert(parent_ok(*maze, came_from@, o0, l0, p0, head, x));
                            }
                            lemma_discover_keeps_order(*maze, start, o0, l0, p0, t0, h, nbrs@, i as int);
                        }
                        came_from.insert(k, current);
                        queue.push_back(next);
                        proof {
                            let h = head - 1;
                            tree = t0.push(t0[h].push(next));
                            order = o0.push(next);
                            level = l0.push(l0[h] + 1);
                            par = p0.push(h);
                            assert(!o0.contains(next));
                            assert forall|c: Cell|
                                #![trigger came_from@.contains_key(ckey(c))]
                                #![trigger order.contains(c)]
                                came_from@.contains_key(ckey(c)) <==> order.contains(c) by {
                                lemma_ckey_injective(c, next);
                                if o0.contains(c) {
                                    let t = choose|t: int| 0 <= t < o0.len() && o0[t] == c;
                                    assert(order[t] == c);
                                }
                                if order.contains(c) && c != next {
                                    let t = choose|t: int| 0 <= t < order.len() && order[t] == c;
                                    assert(o0[t] == c);
                                }
                                if c == next {
                                    assert(order[o0.len() as int] == c);
                                }
                            }
                            assert(order.no_duplicates()) by {
                                assert forall|a: int, b: int| 0 <= a < order.len() && 0 <= b < order.len() && a != b implies order[a] != order[b] by {
                                    if a < o0.len() && b < o0.len() {
                                        assert(o0[a] != o0[b]);
                                    } else if a < o0.len() {
                                        assert(o0.contains(o0[a]));
                                    } else if b < o0.len() {
                                        assert(o0.contains(o0[b]));
                                    }
                                }
                            }
                            lemma_ckey_injective(start, next);
                            assert(came_from@[ckey(start)] == start);
                            assert forall|t: int| 0 < t < order.len() implies #[trigger] parent_ok(*maze, came_from@, order, level, par, head, t) by {
                                if t < o0.len() {
                                    assert(parent_ok(*maze, c0, o0, l0, p0, head, t));
                                    lemma_ckey_injective(o0[t], next);
                                    assert(order[t] == o0[t]);
                                    assert(order[p0[t]] == o0[p0[t]]);
                                } else {
                                    assert(order[h] == current);
                                }
                            }
                            assert forall|a: int, b: int| 0 <= a <= b < order.len() implies #[trigger] level[a] <= #[trigger] level[b] by {
                                if b == o0.len() {
                                    if a < o0.len() {
                                        assert(l0[a] <= l0[o0.len() - 1]);
                                    }
                                } else {
                                    assert(l0[a] <= l0[b]);
                                }
                            }
                            assert(level[order.len() - 1] <= level[head - 1] + 1);
                            assert forall|t: int| 0 <= t < head - 1 implies #[trigger] expanded(*maze, order, level, t) by {
                                lemma_expanded_push(*maze, o0, l0, t, next, l0[h] + 1);
                            }
                            assert forall|t: int| 0 <= t < head implies #[trigger] order[t] != goal by {
                                assert(order[t] == o0[t]);
                            }
                            assert(in_box(next, bx, by));
                            assert(queue@ =~= order.subrange(head, order.len() as int));
                            assert forall|x: int| 0 < x < order.len() && #[trigger] par[x] == head - 1 implies exists|t: int|
                                0 <= t < i + 1 && #[trigger] nbrs@[t] == order[x] by {
                                if x < o0.len() {
                                    let t = choose|t: int| 0 <= t < i && #[trigger] nbrs@[t] == o0[x];
                                    assert(nbrs@[t] == order[x]);
                                } else {
                                    assert(nbrs@[i as int] == order[x]);
                                }
                            }
                            assert forall|t: int| 0 <= t < i + 1 implies exists|j: int|
                                0 <= j < order.len() && #[trigger] order[j] == #[trigger] nbrs@[t] && level[j] <= level[head - 1] + 1 by {
                                if t < i {
                                    let j = choose|j: int| 0 <= j < o0.len() && #[trigger] o0[j] == nbrs@[t] && l0[j] <= l0[head - 1] + 1;
                                    assert(order[j] == o0[j]);
                                } else {
                                    assert(order[o0.len() as int] == nbrs@[t]);
                                }
                            }
                        }
                    } else {
                        proof {
                            let t0 = choose|t: int| 0 <= t < order.len() && order[t] == next;
                            assert(is_step(*maze, current, next));
                            let h = head - 1;
                            // `next` was discovered before `current` was expanded
                            if level[t0] > level[h] + 1 {
                                assert(level[t0] <= level[order.len() - 1]);
                            }
                        }
                    }
                    i = i + 1;
                }
                proof {
                    let h = head - 1;
                    assert forall|n: Cell| #[trigger] is_step(*maze, order[h], n) implies exists|j: int|
                        0 <= j < order.len() && #[trigger] order[j] == n && level[j] <= level[h] + 1 by {
                        assert(nbrs@.contains(n));
                        let t = choose|t: int| 0 <= t < nbrs@.len() && nbrs@[t] == n;
                        let j = choose|j: int| 0 <= j < order.len() && #[trigger] order[j] == #[trigger] nbrs@[t] && level[j] <= level[head - 1] + 1;
                    }
                    assert(expanded(*maze, order, level, h));
                    assert forall|t: int| 0 <= t < order.len() implies in_box(#[trigger] order[t], bx, by) by {}
                    lemma_box_count(order, bx, by);
                }
            },
        }
    }
}

/// Rebuilds the route by walking the parent map back from `goal` to
/// `start`, leaving `start` out (whoever follows it already stands there).
fn reconstruct(
    came_from: &HashMap<u128, Cell>,
    start: Cell,
    goal: Cell,
    Ghost(maze): Ghost<Maze>,
    Ghost(order): Ghost<Seq<Cell>>,
    Ghost(level): Ghost<Seq<int>>,
    Ghost(par): Ghost<Seq<int>>,
    Ghost(tree): Ghost<Seq<Seq<Cell>>>,
    Ghost(g): Ghost<int>,
) -> (path: Vec<Cell>)
    requires
        order.len() >= 1,
        level.len() == order.len(),
        par.len() == order.len(),
        order[0] == start,
        level[0] == 0,
        order.no_duplicates(),
        forall|i: int| 0 <= i < order.len() ==> #[trigger] level[i] >= 0,
        forall|i: int| 0 <= i < order.len() ==> came_from@.contains_key(ckey(#[trigger] order[i])),
        forall|i: int| 0 < i < order.len() ==> #[trigger] tree_link(maze, came_from@, order, level, par, i),
        0 <= g < order.len(),
        order[g] == goal,
        tree.len() == order.len(),
        forall|i: int| 0 <= i < order.len() ==> (#[trigger] tree[i]).len() == level[i],
        forall|i: int| 0 < i < order.len() ==> #[trigger] tree[i] == tree[par[i]].push(order[i]),
    ensures
        is_route(maze, start, path@, goal),
        path@.len() == level[g],
        path@ == tree[g],
{
    let mut rev: Vec<Cell> = Vec::new();
    let mut current = goal;
    let ghost mut ci: int = g;
    while !(current.0 == start.0 && current.1 == start.1)
        invariant
            order.len() >= 1,
            level.len() == order.len(),
            par.len() == order.len(),
            order[0] == start,
            level[0] == 0,
            order.no_duplicates(),
            forall|i: int| 0 <= i < order.len() ==> #[trigger] level[i] >= 0,
            forall|i: int| 0 <= i < order.len() ==> came_from@.contains_key(ckey(#[trigger] order[i])),
            forall|i: int| 0 < i < order.len() ==> #[trigger] tree_link(maze, came_from@, order, level, par, i),
            0 <= g < order.len(),
            order[g] == goal,
            0 <= ci < order.len(),
            order[ci] == current,
            rev@.len() == level[g] - level[ci],
            rev@.len() == 0 ==> current == goal,
            rev@.len() > 0 ==> rev@[0] == goal && is_step(maze, current, rev@.last()),
            forall|k: int| 0 <= k < rev@.len() - 1 ==> is_step(maze, #[trigger] rev@[k + 1], rev@[k]),
            tree.len() == order.len(),
            forall|i: int| 0 <= i < order.len() ==> (#[trigger] tree[i]).len() == level[i],
            forall|i: int| 0 < i < order.len() ==> #[trigger] tree[i] == tree[par[i]].push(order[i]),
            tree[g].take(level[ci]) == tree[ci],
            forall|k: int| 0 <= k < rev@.len() ==> #[trigger] rev@[k] == tree[g][level[g] - 1 - k],
        decreases level[ci],
    {
        proof {
            if ci == 0 {
                assert(current == start);
            }
            assert(tree_link(maze, came_from@, order, level, par, ci));
        }
        let ghost prev_rev = rev@;
        rev.push(current);
        let k = key_of(current);
        let parent = match came_from.get(&k) {
            Some(p) => *p,
            None => {
                proof {
                    assert(came_from@.contains_key(ckey(order[ci])));
                }
                start
            },
        };
        proof {
            assert(parent == order[par[ci]]);
            let pc = par[ci];
            assert(tree[ci] == tree[pc].push(order[ci]));
            assert(tree[g][level[ci] - 1] == tree[g].take(level[ci])[level[ci] - 1]);
            assert(tree[g].take(level[pc]) == tree[g].take(level[ci]).take(level[pc]));
            assert(tree[ci].take(level[pc]) == tree[pc]);
            assert forall|k: int| 0 <= k < rev@.len() implies #[trigger] rev@[k] == tree[g][level[g] - 1 - k] by {
                if k < prev_rev.len() {
                    assert(rev@[k] == prev_rev[k]);
                }
            }
            assert forall|k: int| 0 <= k < rev@.len() - 1 implies is_step(maze, #[trigger] rev@[k + 1], rev@[k]) by {
                if k < prev_rev.len() - 1 {
                    assert(rev@[k + 1] == prev_rev[k + 1]);
                    assert(rev@[k] == prev_rev[k]);
                } else {
                    assert(rev@[k + 1] == current);
                    assert(rev@[k] == prev_rev.last());
                }
            }
            ci = par[ci];
        }
        current = parent;
    }
    proof {
        if ci != 0 {
            assert(order[ci] == order[0]);
        }
    }
    let mut path: Vec<Cell> = Vec::new();
    let mut k = rev.len();
    while k > 0
        invariant
            k <= rev@.len(),
            path@.len() == rev@.len() - k,
            forall|t: int| 0 <= t < path@.len() ==> #[trigger] path@[t] == rev@[rev@.len() - 1 - t],
        decreases k,
    {
        k = k - 1;
        path.push(rev[k]);
    }
    proof {
        let n = rev@.len() as int;
        assert forall|i: int| 0 <= i < path@.len() implies is_step(maze, step_before(start, path@, i), #[trigger] path@[i]) by {
            if i > 0 {
                assert(path@[i - 1] == rev@[n - i]);
                assert(path@[i] == rev@[n - 1 - i]);
                assert(rev@[(n - 1 - i) + 1] == rev@[n - i]);
            }
        }
        if n > 0 {
            assert(path@.last() == rev@[0]);
        }
        assert(n == level[g]);
        assert forall|t: int| 0 <= t < path@.len() implies path@[t] == tree[g][t] by {
            assert(path@[t] == rev@[n - 1 - t]);
        }
        assert(path@ =~= tree[g]);
    }
    path
}

/// A found route never goes through a wall: every cell it enters is walkable.
pub proof fn lemma_route_avoids_walls(maze: Maze, start: Cell, q: Seq<Cell>, goal: Cell, i: int)
    requires
        is_route(maze, start, q, goal),
        0 <= i < q.len(),
    ensures
        !maze.wall_at(q[i].0 as int, q[i].1 as int),
{
    assert(is_step(maze, step_before(start, q, i), q[i]));
}

/// The shortest route from a cell to itself is empty.
pub proof fn lemma_shortest_to_self_is_empty(maze: Maze, start: Cell, q: Seq<Cell>)
    requires
        is_shortest_route(maze, start, q, start),
    ensures
        q.len() == 0,
{
    assert(is_route(maze, start, Seq::<Cell>::empty(), start));
}

/// No walk comes both before and after another one.
proof fn lemma_precedes_asymmetric(start: Cell, p: Seq<Cell>, q: Seq<Cell>)
    requires
        precedes(start, p, q),
    ensures
        !precedes(start, q, p),
{
    if precedes(start, q, p) {
        let i = choose|i: int| #[trigger] parts_earlier(start, p, q, i);
        let j = choose|j: int| #[trigger] parts_earlier(start, q, p, j);
        lemma_same_prefix_same_cell(start, p, q, i);
        lemma_same_prefix_same_cell(start, q, p, j);
        if i < j {
            assert(p[i] == p.take(j)[i]);
            assert(q[i] == q.take(j)[i]);
        } else if j < i {
            assert(p[j] == p.take(i)[j]);
            assert(q[j] == q.take(i)[j]);
        }
    }
}

/// There is only one first shortest route between two cells, so the route
/// the search returns is fully determined by the maze.
pub proof fn lemma_first_shortest_route_unique(maze: Maze, start: Cell, goal: Cell, p: Seq<Cell>, q: Seq<Cell>)
    requires
        is_first_shortest_route(maze, start, p, goal),
        is_first_shortest_route(maze, start, q, goal),
    ensures
        p == q,
{
    assert(p.len() == q.len());
    if p != q {
        assert(precedes(start, p, q));
        assert(precedes(start, q, p));
        lemma_precedes_asymmetric(start, p, q);
    }
}

/// A move goes to an orthogonal neighbour (right while left of the widest
/// row's end, left, down while above the last row, up) and enters it
/// exactly when its character is not a wall glyph `+`, `-`, `|` or a locker
/// `l`: floor and every marker (`p`, `g`, `t`, `e`) can be walked on. The
/// walkable neighbours listed by the search, and by `free_neighbors`, are
/// exactly those cells.
pub proof fn lemma_step_enters_non_walls(maze: Maze, a: Cell, b: Cell)
    ensures
        ({
            let c = maze.cell(b.0 as int, b.1 as int);
            let enters = {
                &&& !(c == '+' || c == '-' || c == '|' || c == 'l')
                &&& {
                    ||| (a.0 + 1 < maze.cols() && b.0 == a.0 + 1 && b.1 == a.1)
                    ||| (a.0 > 0 && b.0 + 1 == a.0 && b.1 == a.1)
                    ||| (a.1 + 1 < maze.rows() && b.0 == a.0 && b.1 == a.1 + 1)
                    ||| (a.1 > 0 && b.0 == a.0 && b.1 + 1 == a.1)
                }
            };
            &&& is_step(maze, a, b) == enters
            &&& neighbor_seq(maze, a).contains(b) == enters
        }),
{
    lemma_neighbor_seq(maze, a);
}

/// Any chain of moves between orthogonal neighbours, each entering a cell
/// that holds no wall glyph (`+`, `-`, `|`, `l`), is a route: its end is
/// reachable, so the search finds a route to it.
pub proof fn lemma_open_chain_is_route(maze: Maze, start: Cell, q: Seq<Cell>)
    requires
        forall|i: int| 0 <= i < q.len() ==> {
            let a = #[trigger] step_before(start, q, i);
            let b = q[i];
            let c = maze.cell(b.0 as int, b.1 as int);
            &&& !(c == '+' || c == '-' || c == '|' || c == 'l')
            &&& {
                ||| (a.0 + 1 < maze.cols() && b.0 == a.0 + 1 && b.1 == a.1)
                ||| (a.0 > 0 && b.0 + 1 == a.0 && b.1 == a.1)
                ||| (a.1 + 1 < maze.rows() && b.0 == a.0 && b.1 == a.1 + 1)
                ||| (a.1 > 0 && b.0 == a.0 && b.1 + 1 == a.1)
            }
        },
    ensures
        is_route(maze, start, q, walk_end(start, q)),
        reachable(maze, start, walk_end(start, q)),
{
    assert forall|i: int| 0 <= i < q.len() implies is_step(maze, step_before(start, q, i), #[trigger] q[i]) by {
        lemma_step_enters_non_walls(maze, step_before(start, q, i), q[i]);
    }
    assert(is_route(maze, start, q, walk_end(start, q)));
}

} // verus!
