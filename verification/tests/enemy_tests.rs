use mazetot::enemy::{
    alert_all, Enemy, State, TEX_BACK_IDLE, TEX_BACK_RUN_A, TEX_BACK_RUN_B, TEX_FRONT_IDLE,
    TEX_FRONT_RUN_A, TEX_FRONT_RUN_B,
};
use mazetot::maze::Maze;
use mazetot::player::Vitals;

fn grid(rows: &[&str]) -> Maze {
    Maze::new(rows.iter().map(|r| r.chars().collect()).collect())
}

fn open_room(w: usize, h: usize) -> Maze {
    let mut cells = vec![vec!['+'; w]; h];
    for row in cells.iter_mut().take(h - 1).skip(1) {
        for cell in row.iter_mut().take(w - 1).skip(1) {
            *cell = ' ';
        }
    }
    Maze::new(cells)
}

#[test]
fn shows_front_when_facing_the_viewer() {
    let mut enemy = Enemy::new();
    enemy.state = State::Idle;
    assert_eq!(enemy.sprite_texture(true), TEX_FRONT_IDLE);
}

#[test]
fn shows_back_when_facing_away_from_the_viewer() {
    let mut enemy = Enemy::new();
    enemy.state = State::Idle;
    assert_eq!(enemy.sprite_texture(false), TEX_BACK_IDLE);
}

#[test]
fn chasing_alternates_run_frames_with_anim_frame() {
    let mut enemy = Enemy::new();
    enemy.state = State::Chasing;

    enemy.anim_frame = false;
    assert_eq!(enemy.sprite_texture(true), TEX_FRONT_RUN_A);

    enemy.anim_frame = true;
    assert_eq!(enemy.sprite_texture(true), TEX_FRONT_RUN_B);
}

#[test]
fn investigating_runs_seen_from_behind() {
    let mut enemy = Enemy::new();
    enemy.state = State::Investigating;
    enemy.anim_frame = false;
    assert_eq!(enemy.sprite_texture(false), TEX_BACK_RUN_A);
    enemy.anim_frame = true;
    assert_eq!(enemy.sprite_texture(false), TEX_BACK_RUN_B);
}

#[test]
fn hidden_player_is_never_seen() {
    let mut enemy = Enemy::new();
    let mut player = Vitals::new();
    player.hidden = true;
    enemy.observe(&player, true, (3, 3));
    assert!(!enemy.is_chasing());
    assert!(!enemy.is_hunting());
}

#[test]
fn seeing_the_player_starts_a_chase_and_losing_them_an_investigation() {
    let mut enemy = Enemy::new();
    let player = Vitals::new();
    enemy.observe(&player, true, (3, 3));
    assert!(enemy.is_chasing());
    enemy.observe(&player, false, (4, 2));
    assert!(enemy.is_hunting());
    assert!(!enemy.is_chasing());
    assert_eq!(enemy.investigate_target, Some((4, 2)));
    assert!(enemy.path.is_empty());
    assert_eq!(enemy.path_target, None);
}

#[test]
fn alert_makes_enemy_investigate_without_seeing_the_player() {
    let maze = open_room(15, 15);
    let mut enemies = vec![Enemy::new()];
    alert_all(&mut enemies, (2, 7));
    // The next frame: the player, behind the enemy on cell (2, 7), is out
    // of its view; the enemy standing on (7, 7) heads for the alert.
    enemies[0].observe(&Vitals::new(), false, (2, 7));
    assert!(enemies[0].plan_investigation(&maze, (7, 7), false));
    assert_eq!(enemies[0].next_waypoint(), Some((6, 7)));
    assert!(
        enemies[0].is_hunting(),
        "un enemigo alertado debería ir a investigar aunque no vea al jugador"
    );
    assert!(!enemies[0].is_chasing(), "investigar no es lo mismo que tenerlo a la vista");
    assert_eq!(enemies[0].investigate_target, Some((2, 7)));
}

#[test]
fn alert_leaves_a_chasing_enemy_alone() {
    let mut chaser = Enemy::new();
    chaser.state = State::Chasing;
    let mut enemies = vec![chaser, Enemy::new()];
    alert_all(&mut enemies, (5, 5));
    assert!(enemies[0].is_chasing());
    assert_eq!(enemies[0].investigate_target, None);
    assert_eq!(enemies[1].state, State::Investigating);
    assert_eq!(enemies.len(), 2);
}

#[test]
fn seeing_the_player_while_investigating_switches_to_chasing() {
    let mut enemies = vec![Enemy::new()];
    alert_all(&mut enemies, (2, 7));
    let player = Vitals::new();
    enemies[0].observe(&player, false, (2, 7));
    assert!(!enemies[0].is_chasing());
    enemies[0].observe(&player, true, (2, 7));
    assert!(enemies[0].is_chasing(), "al verlo debería pasar a perseguir de verdad");
}

#[test]
fn losing_the_trail_goes_back_to_idle_and_forgets_the_target() {
    let maze = grid(&["+++++++++++", "+   +     +", "+   +     +", "+++++++++++"]);
    let mut enemies = vec![Enemy::new()];
    alert_all(&mut enemies, (1, 1));
    let go = enemies[0].plan_investigation(&maze, (1, 1), true);
    assert!(!go);
    assert!(
        !enemies[0].is_hunting(),
        "al llegar sin encontrar al jugador debería volver a patrullar"
    );
    assert_eq!(enemies[0].investigate_target, None);
}

#[test]
fn investigating_with_no_route_gives_up() {
    let maze = grid(&["+++++++++++", "+   +     +", "+   +     +", "+++++++++++"]);
    let mut enemy = Enemy::new();
    enemy.alert((7, 1));
    assert!(!enemy.plan_investigation(&maze, (1, 1), false));
    assert_eq!(enemy.state, State::Idle);
    assert_eq!(enemy.investigate_target, None);
}

#[test]
fn investigating_enemy_paths_around_a_wall_towards_the_alert() {
    let maze = grid(&[
        "+++++++++++",
        "+   +     +",
        "+        +",
        "+   +     +",
        "+++++++++++",
    ]);
    let mut enemy = Enemy::new();
    enemy.alert((8, 1));
    assert!(enemy.plan_investigation(&maze, (1, 1), false));
    assert_eq!(enemy.path_target, Some((8, 1)));
    assert_eq!(enemy.path.len(), 9);
    assert_eq!(enemy.path.last(), Some(&(8, 1)));
    assert!(enemy.path.iter().all(|&(x, y)| !maze.is_wall(x, y)));
    // Following the route waypoint by waypoint empties it.
    let mut walked = 0;
    while let Some(w) = enemy.next_waypoint() {
        assert!(!maze.is_wall(w.0, w.1));
        enemy.drop_waypoint();
        walked += 1;
    }
    assert_eq!(walked, 9);
}

#[test]
fn route_is_kept_while_the_target_does_not_change() {
    let maze = open_room(10, 5);
    let mut enemy = Enemy::new();
    enemy.ensure_path_towards(&maze, (1, 1), (6, 1));
    assert_eq!(enemy.path, vec![(2, 1), (3, 1), (4, 1), (5, 1), (6, 1)]);
    // Same target: the route stays as it was, even from another cell.
    enemy.drop_waypoint();
    enemy.ensure_path_towards(&maze, (2, 1), (6, 1));
    assert_eq!(enemy.path, vec![(3, 1), (4, 1), (5, 1), (6, 1)]);
    // A new target: computed again.
    enemy.ensure_path_towards(&maze, (2, 1), (2, 3));
    assert_eq!(enemy.path.len(), 2);
    assert_eq!(enemy.path_target, Some((2, 3)));
    enemy.clear_path();
    assert!(enemy.next_waypoint().is_none());
}

#[test]
fn wandering_enemy_avoids_immediately_reversing_when_it_has_a_choice() {
    // A straight corridor one cell wide: standing in the middle, only the
    // cell it came from must be left out.
    let maze = open_room(3, 15);
    let mut enemy = Enemy::new();
    enemy.last_wander_cell = Some((1, 6));
    let candidates = enemy.wander_candidates(&maze, (1, 7));
    assert_eq!(candidates, vec![(1, 8)]);
    for roll in 0..4 {
        let mut e = Enemy::new();
        e.last_wander_cell = Some((1, 6));
        let ok = e.commit_wander((1, 7), &candidates, roll);
        assert_eq!(ok, roll == 0);
        if ok {
            assert_eq!(e.path, vec![(1, 8)]);
            assert_eq!(e.last_wander_cell, Some((1, 7)));
        }
    }
}

#[test]
fn a_dead_end_lets_the_patrol_turn_back() {
    let maze = grid(&["+++", "+ +", "+ +", "+++"]);
    let mut enemy = Enemy::new();
    enemy.last_wander_cell = Some((1, 1));
    assert_eq!(enemy.wander_candidates(&maze, (1, 2)), vec![(1, 1)]);
}

#[test]
fn patrol_draws_a_random_free_neighbour() {
    // With a single way out, the draw among one candidate must land on it.
    let maze = grid(&["+++", "+ +", "+ +", "+++"]);
    let mut enemy = Enemy::new();
    assert!(enemy.plan_wander(&maze, (1, 1)));
    assert_eq!(enemy.path, vec![(1, 2)]);
    assert_eq!(enemy.last_wander_cell, Some((1, 1)));

    let room = open_room(15, 15);
    for _ in 0..50 {
        let mut e = Enemy::new();
        assert!(e.plan_wander(&room, (7, 7)));
        let next = e.path[0];
        assert!(!room.is_wall(next.0, next.1));
        assert!([(8, 7), (6, 7), (7, 8), (7, 6)].contains(&next));
    }
}

#[test]
fn patrol_is_stuck_only_in_an_isolated_cell() {
    let sealed = grid(&["+++", "+ +", "+++"]);
    let mut enemy = Enemy::new();
    assert!(!enemy.plan_wander(&sealed, (1, 1)));
    assert!(enemy.path.is_empty());
    assert_eq!(enemy.last_wander_cell, None);
}

#[test]
fn footsteps_follow_the_interval() {
    let mut enemy = Enemy::new();
    let mut due = Vec::new();
    for _ in 0..7 {
        enemy.update_footstep_timer(true, 2);
        due.push(enemy.wants_footstep());
    }
    assert_eq!(due, vec![true, false, false, true, false, false, true]);
    // Standing still resets the count.
    enemy.update_footstep_timer(false, 2);
    assert!(!enemy.wants_footstep());
    assert_eq!(enemy.footstep_timer, 0);
    enemy.update_footstep_timer(true, 2);
    assert!(enemy.wants_footstep());
}

#[test]
fn footsteps_sound_more_often_at_higher_speed() {
    let count = |interval: u32| {
        let mut enemy = Enemy::new();
        let mut n = 0;
        for _ in 0..100 {
            enemy.update_footstep_timer(true, interval);
            if enemy.wants_footstep() {
                n += 1;
            }
        }
        n
    };
    assert_eq!(count(20), 5);
    assert_eq!(count(9), 10);
    assert!(count(9) > count(20));
}

#[test]
fn each_footstep_flips_the_running_frame() {
    let mut enemy = Enemy::new();
    enemy.update_footstep_timer(true, 0);
    assert!(enemy.anim_frame);
    enemy.update_footstep_timer(true, 0);
    assert!(!enemy.anim_frame);
}

#[test]
fn the_running_frame_flips_exactly_on_footsteps() {
    let mut enemy = Enemy::new();
    let interval = 3;
    for k in 0..40u32 {
        let frame_before = enemy.anim_frame;
        enemy.update_footstep_timer(true, interval);
        let sounds = k % (interval + 1) == 0;
        assert_eq!(enemy.wants_footstep(), sounds);
        assert_eq!(enemy.anim_frame != frame_before, sounds);
    }
}
