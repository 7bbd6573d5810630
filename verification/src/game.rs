use vstd::prelude::*;
use crate::maze::{Cell, Maze};
use crate::player::{Vitals, after_hit, after_tick, damage_player_if_close};
use crate::totem::{Totem, all_destroyed, can_interact, destroy, interactable, is_nearest_interactable, standing};

verus! {

/// Whether the level is still being played, was won by reaching the exit,
/// or lost with the last heart.
#[derive(Clone, Copy, PartialEq, Eq, Structural, Debug)]
pub enum GameState {
    Playing,
    Won,
    Lost,
}

/// Settles the end of a frame of play. A finished game stays as it is.
/// Standing on the exit cell (`g`) wins, but only once no totem is left
/// standing: the exit does not open before. Reaching it with an enemy
/// right behind counts as a win, not a loss: no damage is dealt on that
/// frame. Otherwise the grace period runs down, a close enemy (`enemy_close`)
/// hurts the player, and losing the last heart loses the game.
pub fn advance_game(
    state: GameState,
    player: &mut Vitals,
    maze: &Maze,
    player_cell: Cell,
    totems: &Vec<Totem>,
    enemy_close: bool,
) -> (next: GameState)
    ensures
        state != GameState::Playing ==> next == state && *final(player) == *old(player),
        state == GameState::Playing && maze.cell(player_cell.0 as int, player_cell.1 as int) == 'g'
            && standing(totems@) == 0 ==> next == GameState::Won && *final(player) == *old(player),
        state == GameState::Playing && !(maze.cell(player_cell.0 as int, player_cell.1 as int) == 'g'
            && standing(totems@) == 0) ==> {
            &&& *final(player) == (if !old(player).hidden && enemy_close {
                after_hit(after_tick(*old(player)))
            } else {
                after_tick(*old(player))
            })
            &&& next == (if final(player).lives == 0 { GameState::Lost } else { GameState::Playing })
        },
{
    if state != GameState::Playing {
        return state;
    }
    if maze.get(player_cell.0, player_cell.1) == 'g' && all_destroyed(totems) {
        return GameState::Won;
    }
    player.tick();
    damage_player_if_close(player, enemy_close);
    if player.lives == 0 {
        GameState::Lost
    } else {
        GameState::Playing
    }
}

/// What pressing the interaction key did.
#[derive(Clone, Copy, PartialEq, Eq, Structural, Debug)]
pub enum Interaction {
    /// The player stepped out of the locker they were hiding in.
    LeftLocker,
    /// The totem at this index was smashed.
    SmashedTotem(usize),
    /// The player hid in a nearby locker.
    EnteredLocker,
    /// Nothing within reach.
    Nothing,
}

/// The interaction key: a hidden player steps out of the locker; otherwise
/// the nearest standing totem within `reach` is smashed (`distances[i]` is
/// how far the player is from totem `i`); otherwise, with a locker within
/// reach (`locker_nearby`), the player hides in it.
pub fn interact(
    player: &mut Vitals,
    totems: &mut Vec<Totem>,
    distances: &Vec<u32>,
    reach: u32,
    locker_nearby: bool,
) -> (r: Interaction)
    ensures
        final(player).lives == old(player).lives,
        final(player).invulnerable_frames == old(player).invulnerable_frames,
        old(player).hidden ==> r == Interaction::LeftLocker && !final(player).hidden && final(totems)@ == old(totems)@,
        !old(player).hidden ==> match r {
            Interaction::SmashedTotem(i) => {
                &&& is_nearest_interactable(old(totems)@, distances@, reach, i as int)
                &&& final(totems)@.len() == old(totems)@.len()
                &&& final(totems)@[i as int].destroyed
                &&& final(totems)@[i as int].cell == old(totems)@[i as int].cell
                &&& forall|j: int| 0 <= j < old(totems)@.len() && j != i ==> #[trigger] final(totems)@[j] == old(totems)@[j]
                &&& standing(final(totems)@) + 1 == standing(old(totems)@)
                &&& !final(player).hidden
            },
            Interaction::EnteredLocker => {
                &&& forall|j: int| !can_interact(old(totems)@, distances@, reach, j)
                &&& locker_nearby
                &&& final(player).hidden
                &&& final(totems)@ == old(totems)@
            },
            Interaction::Nothing => {
                &&& forall|j: int| !can_interact(old(totems)@, distances@, reach, j)
                &&& !locker_nearby
                &&& !final(player).hidden
                &&& final(totems)@ == old(totems)@
            },
            Interaction::LeftLocker => false,
        },
{
    if player.hidden {
        player.hidden = false;
        return Interaction::LeftLocker;
    }
    match interactable(totems, distances, reach) {
        Some(i) => {
            let ghost before = totems@;
            destroy(totems, i);
            proof {
                crate::totem::lemma_destroy_counts(before, totems@, i as int);
            }
            Interaction::SmashedTotem(i)
        },
        None => {
            if locker_nearby {
                player.hidden = true;
                Interaction::EnteredLocker
            } else {
                Interaction::Nothing
            }
        },
    }
}

/// Which sound a smashed totem makes.
#[derive(Clone, Copy, PartialEq, Eq, Structural, Debug)]
pub enum TotemCue {
    /// The first one of the level: the crash plus the scream of what just
    /// woke up.
    First,
    /// Neither the first nor the last: the crash plus the scream of an
    /// enemy that is still awake.
    Middle,
    /// The last one: the exit opens.
    Last,
}

/// The cue for a totem just smashed, given how many stood before the blow
/// (`standing_before`) out of `total`: the last one wins over the first
/// one when the level has a single totem.
pub fn totem_cue(standing_before: usize, total: usize) -> (c: TotemCue)
    ensures
        standing_before == 1 ==> c == TotemCue::Last,
        standing_before != 1 && standing_before == total ==> c == TotemCue::First,
        standing_before != 1 && standing_before != total ==> c == TotemCue::Middle,
{
    if standing_before == 1 {
        TotemCue::Last
    } else if standing_before == total {
        TotemCue::First
    } else {
        TotemCue::Middle
    }
}

/// Whether this interaction wakes the enemy up: it sleeps until the first
/// totem of the level is smashed, that is a smash while all `total` of them
/// were still standing (`standing_before`). Once one is down, no later
/// smash finds them all standing again, so it wakes only once.
pub fn wakes_enemy(r: Interaction, standing_before: usize, total: usize) -> (b: bool)
    ensures
        b == (r is SmashedTotem && standing_before == total),
{
    match r {
        Interaction::SmashedTotem(_) => standing_before == total,
        _ => false,
    }
}

} // verus!
