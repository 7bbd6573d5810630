use mazetot::maze::Maze;
use mazetot::pathfind::{find_path, free_neighbors};

fn grid(rows: &[&str]) -> Maze {
    Maze::new(rows.iter().map(|r| r.chars().collect()).collect())
}

fn open_room(w: usize, h: usize) -> Maze {
    let mut cells = vec![vec!['+'; w]; h];
    for row in cells.iter_mut().take(h - 1).skip(1) {
        for cell in row.iter_mut().take(w - 1).skip(1) {
            *cell = ' ';
        }
    }
    Maze::new(cells)
}

fn assert_is_route(maze: &Maze, start: (usize, usize), path: &[(usize, usize)]) {
    let mut prev = start;
    for &c in path {
        assert!(free_neighbors(maze, prev).contains(&c), "{:?} -> {:?} is not a move", prev, c);
        prev = c;
    }
}

#[test]
fn finds_a_straight_path_in_an_open_room() {
    let maze = open_room(10, 5);
    let path = find_path(&maze, (1, 1), (7, 1)).expect("debería encontrar camino");
    assert_eq!(path.last(), Some(&(7, 1)));
    assert_eq!(path.len(), 6);
}

#[test]
fn routes_around_a_wall_between_two_rooms() {
    let maze = grid(&[
        "+++++++++++",
        "+   +     +",
        "+        +",
        "+   +     +",
        "+++++++++++",
    ]);
    let path = find_path(&maze, (1, 1), (9, 1)).expect("debería rodear la pared");
    assert!(
        path.iter().all(|&(x, y)| !maze.is_wall(x, y)),
        "la ruta no debería pasar por ninguna celda de pared"
    );
    assert_eq!(path.last(), Some(&(9, 1)));
}

#[test]
fn no_path_between_disconnected_rooms() {
    let maze = grid(&["+++++++++++", "+   +     +", "+   +     +", "+++++++++++"]);
    assert!(find_path(&maze, (1, 1), (9, 1)).is_none());
}

#[test]
fn same_cell_returns_an_empty_path() {
    let maze = open_room(5, 5);
    assert_eq!(find_path(&maze, (2, 2), (2, 2)), Some(Vec::new()));
}

#[test]
fn detour_has_the_shortest_length() {
    // From (1,1) down to the gap row, through the gap at x=4 and up again:
    // 1 down, 8 right, 1 up.
    let maze = grid(&[
        "+++++++++++",
        "+   +     +",
        "+        +",
        "+   +     +",
        "+++++++++++",
    ]);
    let path = find_path(&maze, (1, 1), (9, 1)).unwrap();
    assert_eq!(path.len(), 10);
    assert_is_route(&maze, (1, 1), &path);
}

#[test]
fn wall_endpoints_have_no_path() {
    let maze = open_room(6, 6);
    assert!(find_path(&maze, (0, 0), (2, 2)).is_none());
    assert!(find_path(&maze, (2, 2), (0, 3)).is_none());
    // Even the same cell: a wall is never a place to walk to.
    assert!(find_path(&maze, (0, 0), (0, 0)).is_none());
}

#[test]
fn neighbors_come_right_left_down_up() {
    let maze = open_room(5, 5);
    assert_eq!(free_neighbors(&maze, (2, 2)), vec![(3, 2), (1, 2), (2, 3), (2, 1)]);
    // In a corner of the room only two neighbours are floor.
    assert_eq!(free_neighbors(&maze, (1, 1)), vec![(2, 1), (1, 2)]);
    // A cell surrounded by walls has none.
    let sealed = grid(&["+++", "+ +", "+++"]);
    assert!(free_neighbors(&sealed, (1, 1)).is_empty());
}

#[test]
fn path_through_a_winding_corridor() {
    let maze = grid(&[
        "+++++++",
        "+     +",
        "+++++ +",
        "+     +",
        "+ +++++",
        "+     +",
        "+++++++",
    ]);
    let path = find_path(&maze, (1, 1), (5, 5)).unwrap();
    // 4 right, 2 down, 4 left, 2 down, 4 right.
    assert_eq!(path.len(), 16);
    assert_eq!(path.last(), Some(&(5, 5)));
    assert_is_route(&maze, (1, 1), &path);
}

#[test]
fn among_shortest_routes_moves_are_tried_right_left_down_up() {
    let room = Maze::new(["    ", "    ", "    "].iter().map(|r| r.chars().collect()).collect());
    // Right then down beats down then right.
    assert_eq!(find_path(&room, (1, 1), (2, 2)), Some(vec![(2, 1), (2, 2)]));
    // Left then up beats up then left.
    assert_eq!(find_path(&room, (1, 1), (0, 0)), Some(vec![(0, 1), (0, 0)]));
    // Left then down beats down then left.
    assert_eq!(find_path(&room, (1, 1), (0, 2)), Some(vec![(0, 1), (0, 2)]));
}
