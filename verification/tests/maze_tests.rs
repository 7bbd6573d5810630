use mazetot::maze::{parse_maze, Maze};

fn grid(rows: &[&str]) -> Maze {
    Maze::new(rows.iter().map(|r| r.chars().collect()).collect())
}

fn wall_between_two_rooms() -> Maze {
    grid(&["+-----+", "|  |  |", "+-----+"])
}

#[test]
fn is_free_rejects_points_overlapping_a_wall() {
    let maze = wall_between_two_rooms();
    // A body centred at (15, 15) with radius 4 spans pixels 11..=19.
    assert!(maze.is_free_box(11, 11, 19, 19, 10));
    // Centred at (28, 15) it spans 24..=32 and its right side touches the
    // wall at x = 30.
    assert!(!maze.is_free_box(24, 11, 32, 19, 10));
}

#[test]
fn dimensions_follow_the_longest_row() {
    let maze = grid(&["+--+", "|p", "+--+--"]);
    assert_eq!(maze.height(), 3);
    assert_eq!(maze.width(), 6);
    let empty = Maze::new(Vec::new());
    assert_eq!(empty.height(), 0);
    assert_eq!(empty.width(), 0);
}

#[test]
fn short_rows_and_outside_read_as_floor() {
    let maze = grid(&["+--+", "|p", "+--+"]);
    assert_eq!(maze.get(0, 0), '+');
    assert_eq!(maze.get(1, 1), 'p');
    assert_eq!(maze.get(3, 1), ' ');
    assert_eq!(maze.get(50, 50), ' ');
    assert!(!maze.is_wall(3, 1));
}

#[test]
fn walls_and_lockers_block() {
    let maze = grid(&["+-|l ptge"]);
    let walls: Vec<bool> = (0..9).map(|x| maze.is_wall(x, 0)).collect();
    assert_eq!(walls, vec![true, true, true, true, false, false, false, false, false]);
}

#[test]
fn find_all_lists_cells_in_reading_order() {
    let maze = grid(&["t  t", " t", "t"]);
    assert_eq!(maze.find_all('t'), vec![(0, 0), (3, 0), (1, 1), (0, 2)]);
    assert_eq!(maze.find('t'), Some((0, 0)));
    assert!(maze.find_all('x').is_empty());
    assert_eq!(maze.find('x'), None);
}

#[test]
fn start_and_goal_are_found() {
    let maze = grid(&["+--+", "|p |", "| g|", "+--+"]);
    assert_eq!(maze.player_start(), Some((1, 1)));
    assert_eq!(maze.goal(), Some((2, 2)));
    let no_goal = grid(&["p"]);
    assert_eq!(no_goal.goal(), None);
}

#[test]
fn open_pixels_need_non_negative_floor() {
    let maze = wall_between_two_rooms();
    assert!(maze.is_open_pixel(15, 15, 10));
    assert!(!maze.is_open_pixel(-1, 15, 10));
    assert!(!maze.is_open_pixel(15, -3, 10));
    assert!(!maze.is_open_pixel(35, 15, 10));
    assert!(!maze.is_open_pixel(5, 15, 10));
    // Far outside the map everything is floor.
    assert!(maze.is_open_pixel(i64::MAX, i64::MAX, 10));
}

fn rows_of(maze: &Maze) -> Vec<String> {
    (0..maze.height()).map(|y| (0..maze.width()).map(|x| maze.get(x, y)).collect::<String>().trim_end().to_string()).collect()
}

#[test]
fn a_maze_file_has_one_row_per_line() {
    let maze = parse_maze("+--+\n|pg|\n+--+\n");
    assert_eq!(maze.height(), 3);
    assert_eq!(maze.width(), 4);
    assert_eq!(maze.player_start(), Some((1, 1)));
    assert_eq!(maze.goal(), Some((2, 1)));
    assert!(maze.is_wall(0, 0));
}

#[test]
fn crlf_files_read_as_their_lines() {
    let maze = parse_maze("+-+\r\n|p|\r\n+-+");
    assert_eq!(maze.height(), 3);
    assert_eq!(maze.width(), 3);
    assert_eq!(rows_of(&maze), vec!["+-+", "|p|", "+-+"]);
}

#[test]
fn blank_lines_are_empty_rows_and_no_row_follows_the_last_break() {
    let maze = parse_maze("ab\n\ncd\n");
    assert_eq!(maze.height(), 3);
    assert_eq!(maze.get(0, 1), ' ');
    assert_eq!(maze.get(1, 2), 'd');
    assert_eq!(parse_maze("").height(), 0);
    assert_eq!(parse_maze("\n").height(), 1);
    // A carriage return not followed by a break stays in the row.
    assert_eq!(parse_maze("a\r").width(), 2);
}
