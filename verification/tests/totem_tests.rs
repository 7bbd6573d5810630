use mazetot::maze::Maze;
use mazetot::totem::{all_destroyed, destroy, interactable, remaining, spawn_from_maze, Totem};

/// How close the player has to be to a totem, in world pixels.
const INTERACT_RANGE: f32 = 40.0;

/// The distance between two points, as a key that orders as the distance
/// does (the bits of a non-negative `f32`).
fn distance_key(from: (f32, f32), to: (f32, f32)) -> u32 {
    (to.0 - from.0).hypot(to.1 - from.1).to_bits()
}

fn reach() -> u32 {
    INTERACT_RANGE.to_bits()
}

#[test]
fn interactable_only_within_range() {
    let totems = vec![Totem::new((0, 0))];
    let near = vec![distance_key((0.0, 0.0), (20.0, 0.0))];
    let far = vec![distance_key((0.0, 0.0), (500.0, 0.0))];
    assert_eq!(interactable(&totems, &near, reach()), Some(0));
    assert_eq!(interactable(&totems, &far, reach()), None);
}

#[test]
fn destroyed_totem_is_not_interactable_or_drawn() {
    let mut totems = vec![Totem::new((0, 0))];
    let distances = vec![distance_key((0.0, 0.0), (20.0, 0.0))];
    destroy(&mut totems, 0);
    assert_eq!(interactable(&totems, &distances, reach()), None);
    assert!(totems[0].is_destroyed());
}

#[test]
fn interactable_picks_the_nearest_standing_one() {
    let mut totems = vec![Totem::new((0, 0)), Totem::new((1, 0)), Totem::new((2, 0))];
    let player = (30.0, 10.0);
    let distances = vec![
        distance_key((0.0, 0.0), player),
        distance_key((40.0, 0.0), player),
        distance_key((80.0, 0.0), player),
    ];
    // 31.6 px and 14.1 px are both within reach: the nearer one wins.
    assert_eq!(interactable(&totems, &distances, reach()), Some(1));
    destroy(&mut totems, 1);
    assert_eq!(interactable(&totems, &distances, reach()), Some(0));
    destroy(&mut totems, 0);
    // 51 px away is out of reach.
    assert_eq!(interactable(&totems, &distances, reach()), None);
}

#[test]
fn equally_near_totems_go_in_list_order() {
    let totems = vec![Totem::new((0, 0)), Totem::new((2, 0))];
    let distances = vec![distance_key((0.0, 0.0), (20.0, 0.0)), distance_key((40.0, 0.0), (20.0, 0.0))];
    assert_eq!(interactable(&totems, &distances, reach()), Some(0));
    // A missing distance counts as out of reach.
    assert_eq!(interactable(&totems, &vec![], reach()), None);
}

#[test]
fn all_destroyed_tracks_remaining_count() {
    let mut totems = vec![Totem::new((0, 0)), Totem::new((2, 2))];
    assert_eq!(remaining(&totems), 2);
    assert!(!all_destroyed(&totems));

    destroy(&mut totems, 0);
    assert_eq!(remaining(&totems), 1);
    assert!(!all_destroyed(&totems));

    destroy(&mut totems, 1);
    assert_eq!(remaining(&totems), 0);
    assert!(all_destroyed(&totems));
}

#[test]
fn destroying_twice_or_out_of_range_changes_nothing() {
    let mut totems = vec![Totem::new((0, 0)), Totem::new((2, 2))];
    destroy(&mut totems, 0);
    destroy(&mut totems, 0);
    destroy(&mut totems, 7);
    assert_eq!(remaining(&totems), 1);
    assert!(!totems[1].is_destroyed());
}

#[test]
fn totems_spawn_on_their_marks() {
    let maze = Maze::new(["+---+", "|t t|", "| t |", "+---+"].iter().map(|r| r.chars().collect()).collect());
    let totems = spawn_from_maze(&maze, 't');
    let cells: Vec<(usize, usize)> = totems.iter().map(|t| t.cell).collect();
    assert_eq!(cells, vec![(1, 1), (3, 1), (2, 2)]);
    assert!(totems.iter().all(|t| !t.is_destroyed()));
    assert_eq!(remaining(&totems), 3);
    assert!(all_destroyed(&Vec::new()));
}
