use mazetot::game::{advance_game, interact, totem_cue, wakes_enemy, GameState, Interaction, TotemCue};
use mazetot::maze::Maze;
use mazetot::player::{Vitals, START_LIVES};
use mazetot::totem::{remaining, Totem};

fn grid(rows: &[&str]) -> Maze {
    Maze::new(rows.iter().map(|r| r.chars().collect()).collect())
}

#[test]
fn the_exit_opens_only_without_totems() {
    let maze = grid(&["+---+", "|p g|", "+---+"]);
    let mut player = Vitals::new();
    let mut totems = vec![Totem::new((1, 1))];
    assert_eq!(advance_game(GameState::Playing, &mut player, &maze, (3, 1), &totems, false), GameState::Playing);
    totems[0].destroyed = true;
    assert_eq!(advance_game(GameState::Playing, &mut player, &maze, (3, 1), &totems, false), GameState::Won);
}

#[test]
fn reaching_the_exit_with_an_enemy_close_is_a_win() {
    let maze = grid(&["g"]);
    let mut player = Vitals::new();
    let state = advance_game(GameState::Playing, &mut player, &maze, (0, 0), &Vec::new(), true);
    assert_eq!(state, GameState::Won);
    assert_eq!(player.lives, START_LIVES);
}

#[test]
fn losing_the_last_heart_loses_the_game() {
    let maze = grid(&["p "]);
    let mut player = Vitals::new();
    player.lives = 1;
    let state = advance_game(GameState::Playing, &mut player, &maze, (1, 0), &Vec::new(), true);
    assert_eq!(state, GameState::Lost);
    assert_eq!(player.lives, 0);
    // A finished game stays finished.
    assert_eq!(advance_game(state, &mut player, &maze, (1, 0), &Vec::new(), false), GameState::Lost);
}

const NEAR: u32 = 10;
const FAR: u32 = 90;
const REACH: u32 = 40;

#[test]
fn interaction_smashes_totems_before_lockers() {
    let mut player = Vitals::new();
    let mut totems = vec![Totem::new((1, 1)), Totem::new((2, 1))];
    assert_eq!(interact(&mut player, &mut totems, &vec![FAR, NEAR], REACH, true), Interaction::SmashedTotem(1));
    assert_eq!(remaining(&totems), 1);
    assert_eq!(interact(&mut player, &mut totems, &vec![FAR, NEAR], REACH, true), Interaction::EnteredLocker);
    assert!(player.hidden);
    assert_eq!(interact(&mut player, &mut totems, &vec![NEAR, NEAR], REACH, true), Interaction::LeftLocker);
    assert!(!player.hidden);
    assert_eq!(remaining(&totems), 1);
    assert_eq!(interact(&mut player, &mut totems, &vec![FAR, FAR], REACH, false), Interaction::Nothing);
}

#[test]
fn interaction_smashes_the_nearest_totem() {
    let mut player = Vitals::new();
    let mut totems = vec![Totem::new((1, 1)), Totem::new((2, 1))];
    assert_eq!(interact(&mut player, &mut totems, &vec![25, 15], REACH, false), Interaction::SmashedTotem(1));
    assert_eq!(interact(&mut player, &mut totems, &vec![25, 15], REACH, false), Interaction::SmashedTotem(0));
    assert_eq!(remaining(&totems), 0);
}

#[test]
fn only_the_first_smashed_totem_wakes_the_enemy() {
    assert!(wakes_enemy(Interaction::SmashedTotem(2), 3, 3));
    assert!(!wakes_enemy(Interaction::SmashedTotem(0), 2, 3));
    assert!(wakes_enemy(Interaction::SmashedTotem(0), 1, 1));
    assert!(!wakes_enemy(Interaction::EnteredLocker, 3, 3));
    assert!(!wakes_enemy(Interaction::Nothing, 3, 3));
}

#[test]
fn totem_cues() {
    assert_eq!(totem_cue(3, 3), TotemCue::First);
    assert_eq!(totem_cue(2, 3), TotemCue::Middle);
    assert_eq!(totem_cue(1, 3), TotemCue::Last);
    assert_eq!(totem_cue(1, 1), TotemCue::Last);
}
