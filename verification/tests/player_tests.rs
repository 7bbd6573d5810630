use mazetot::player::{damage_player_if_close, Vitals, INVULNERABILITY_FRAMES, START_LIVES};

#[test]
fn player_takes_damage_when_an_enemy_is_close() {
    let mut player = Vitals::new();
    damage_player_if_close(&mut player, true);
    assert_eq!(player.lives, START_LIVES - 1);
}

#[test]
fn player_takes_no_damage_when_every_enemy_is_far() {
    let mut player = Vitals::new();
    damage_player_if_close(&mut player, false);
    assert_eq!(player.lives, START_LIVES);
}

#[test]
fn hidden_player_takes_no_damage_even_when_close() {
    let mut player = Vitals::new();
    player.hidden = true;
    damage_player_if_close(&mut player, true);
    assert_eq!(player.lives, START_LIVES);
}

#[test]
fn a_hit_is_counted_once_per_grace_period() {
    let mut player = Vitals::new();
    player.take_damage();
    assert_eq!(player.lives, START_LIVES - 1);
    assert!(player.is_invulnerable());
    for _ in 0..(INVULNERABILITY_FRAMES - 1) {
        player.tick();
        player.take_damage();
        assert_eq!(player.lives, START_LIVES - 1);
    }
    player.tick();
    assert!(!player.is_invulnerable());
    player.take_damage();
    assert_eq!(player.lives, START_LIVES - 2);
}

#[test]
fn lives_never_go_below_zero() {
    let mut player = Vitals::new();
    for _ in 0..10 {
        player.take_damage();
        for _ in 0..INVULNERABILITY_FRAMES {
            player.tick();
        }
    }
    assert_eq!(player.lives, 0);
    assert_eq!(START_LIVES, 3);
}
