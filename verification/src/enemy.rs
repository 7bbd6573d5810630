use rand::Rng;
use vstd::prelude::*;
use vstd::arithmetic::div_mod::{lemma_fundamental_div_mod, lemma_fundamental_div_mod_converse, lemma_mod_pos_bound};
use vstd::arithmetic::mul::{lemma_mul_is_commutative, lemma_mul_is_distributive_add_other_way};
use crate::maze::{Cell, Maze};
use crate::player::Vitals;
use crate::pathfind::{find_path, free_neighbors, is_first_shortest_route, is_step, neighbor_seq, reachable};

verus! {

/// Texture characters for each combination of view (front or back) and
/// pose (standing, or frame A/B of the running animation).
pub const TEX_FRONT_IDLE: char = 'e';

pub const TEX_BACK_IDLE: char = 'b';

pub const TEX_FRONT_RUN_A: char = '1';

pub const TEX_FRONT_RUN_B: char = '2';

pub const TEX_BACK_RUN_A: char = '3';

pub const TEX_BACK_RUN_B: char = '4';

/// What the enemy is doing right now:
/// - `Idle`: patrols on its own, with no clue where the player is.
/// - `Investigating`: does not see the player but heads for the last cell
///   where the player was known to be (seen there, or where a totem was
///   smashed); arriving there and finding nobody, it loses the trail and
///   goes back to `Idle`.
/// - `Chasing`: has the player in sight right now.
#[derive(Clone, Copy, PartialEq, Eq, Structural, Debug)]
pub enum State {
    Idle,
    Investigating,
    Chasing,
}

/// The enemy's mind: how aware it is of the player, where it is heading and
/// the rhythm of its footsteps. Its position and the direction it watches
/// are world measurements kept beside it by whoever moves it.
pub struct Enemy {
    pub state: State,
    /// Cell the last patrol step started from, so that a patrol does not
    /// turn straight back (except in a dead end, where it must).
    pub last_wander_cell: Option<Cell>,
    /// Last cell where the player was known to be, while investigating.
    /// `None` once the enemy arrives and finds nobody: it lost the trail.
    pub investigate_target: Option<Cell>,
    /// Cells still to walk through towards the current objective.
    pub path: Vec<Cell>,
    /// Objective cell `path` was computed for, to know when it is stale.
    pub path_target: Option<Cell>,
    /// Frames left until the next footstep sound.
    pub footstep_timer: u32,
    /// Whether a footstep sound is due on this very frame.
    pub footstep_due: bool,
    /// Frame of the running animation (flips on every footstep).
    pub anim_frame: bool,
}

/// The patrol candidates from `current`: the walkable neighbours, without
/// the cell the previous patrol step came from when there is any other
/// choice.
pub open spec fn wander_options(maze: Maze, current: Cell, last: Option<Cell>) -> Seq<Cell> {
    let n = neighbor_seq(maze, current);
    if n.len() > 1 && last is Some {
        n.filter(|c: Cell| c != last.unwrap())
    } else {
        n
    }
}

/// The path an enemy standing on `start` holds after asking for a route to
/// `target`: the shortest route that comes first in move order when both
/// cells are walkable and connected, nothing otherwise.
pub open spec fn planned_path(maze: Maze, start: Cell, target: Cell, path: Seq<Cell>) -> bool {
    if !maze.wall_at(start.0 as int, start.1 as int) && !maze.wall_at(target.0 as int, target.1 as int)
        && reachable(maze, start, target) {
        is_first_shortest_route(maze, start, path, target)
    } else {
        path.len() == 0
    }
}

/// A number drawn from `0..n` by `rand::thread_rng().gen_range(0..n)`
/// (rand's `Rng::gen_range` on the thread-local generator). The contract
/// claims only that the result lies in `0..n`; `n > 0` because
/// `gen_range` panics on an empty range. It does not state that the draw
/// is uniform, nor that `thread_rng` panics when the system's entropy
/// source cannot seed it.
#[verifier::external_body]
fn random_below(n: usize) -> (r: usize)
    requires
        n > 0,
    ensures
        r < n,
{
    rand::thread_rng().gen_range(0..n)
}

impl Enemy {
    /// A fresh enemy: patrolling, with no trail, no route and no pending
    /// footstep.
    pub fn new() -> (e: Self)
        ensures
            e.state == State::Idle,
            e.last_wander_cell is None,
            e.investigate_target is None,
            e.path@.len() == 0,
            e.path_target is None,
            e.footstep_timer == 0,
            !e.footstep_due,
            !e.anim_frame,
    {
        Enemy {
            state: State::Idle,
            last_wander_cell: None,
            investigate_target: None,
            path: Vec::new(),
            path_target: None,
            footstep_timer: 0,
            footstep_due: false,
            anim_frame: false,
        }
    }

    /// Whether it is chasing or investigating the player right now.
    pub fn is_hunting(&self) -> (b: bool)
        ensures
            b == (self.state != State::Idle),
    {
        self.state != State::Idle
    }

    /// Whether it has the player in sight right now (as opposed to heading
    /// for a last known position without seeing them).
    pub fn is_chasing(&self) -> (b: bool)
        ensures
            b == (self.state == State::Chasing),
    {
        self.state == State::Chasing
    }

    /// Whether a footstep of this enemy should sound on this frame. It is
    /// recomputed on every update, so it is read right after one.
    pub fn wants_footstep(&self) -> (b: bool)
        ensures
            b == self.footstep_due,
    {
        self.footstep_due
    }

    /// Texture to draw this frame, given whether the viewer sees its front
    /// (the enemy faces the viewer) or its back. While chasing or
    /// investigating it alternates two running frames with its own
    /// footsteps.
    pub fn sprite_texture(&self, front: bool) -> (t: char)
        ensures
            t == (match self.state {
                State::Idle => if front { TEX_FRONT_IDLE } else { TEX_BACK_IDLE },
                _ => if front {
                    if self.anim_frame { TEX_FRONT_RUN_B } else { TEX_FRONT_RUN_A }
                } else {
                    if self.anim_frame { TEX_BACK_RUN_B } else { TEX_BACK_RUN_A }
                },
            }),
    {
        match (self.state, front, self.anim_frame) {
            (State::Idle, true, _) => TEX_FRONT_IDLE,
            (State::Idle, false, _) => TEX_BACK_IDLE,
            (_, true, false) => TEX_FRONT_RUN_A,
            (_, true, true) => TEX_FRONT_RUN_B,
            (_, false, false) => TEX_BACK_RUN_A,
            (_, false, true) => TEX_BACK_RUN_B,
        }
    }

    /// Forgets the current route.
    pub fn clear_path(&mut self)
        ensures
            final(self).path@.len() == 0,
            final(self).path_target is None,
            final(self).state == old(self).state,
            final(self).last_wander_cell == old(self).last_wander_cell,
            final(self).investigate_target == old(self).investigate_target,
            final(self).footstep_timer == old(self).footstep_timer,
            final(self).footstep_due == old(self).footstep_due,
            final(self).anim_frame == old(self).anim_frame,
    {
        self.path.clear();
        self.path_target = None;
    }

    /// The next cell of the route, if any.
    pub fn next_waypoint(&self) -> (w: Option<Cell>)
        ensures
            self.path@.len() == 0 ==> w is None,
            self.path@.len() > 0 ==> w == Some(self.path@[0]),
    {
        if self.path.len() == 0 {
            None
        } else {
            Some(self.path[0])
        }
    }

    /// Drops the first cell of the route, once it has been reached.
    pub fn drop_waypoint(&mut self)
        ensures
            old(self).path@.len() == 0 ==> final(self).path@ == old(self).path@,
            old(self).path@.len() > 0 ==> final(self).path@ == old(self).path@.drop_first(),
            final(self).path_target == old(self).path_target,
            final(self).state == old(self).state,
            final(self).last_wander_cell == old(self).last_wander_cell,
            final(self).investigate_target == old(self).investigate_target,
            final(self).footstep_timer == old(self).footstep_timer,
            final(self).footstep_due == old(self).footstep_due,
            final(self).anim_frame == old(self).anim_frame,
    {
        if self.path.len() > 0 {
            self.path.remove(0);
            proof {
                assert(self.path@ =~= old(self).path@.drop_first());
            }
        }
    }

    /// What the enemy makes of this frame: it sees the player when they are
    /// in view (`in_view`: within range and field of view, with no wall in
    /// between) and not hidden in a locker, where they are never seen
    /// however close or in front. Seeing the player means chasing; having
    /// had them in sight until now and losing them means investigating the
    /// cell they were last seen in (`player_cell`), rather than magically
    /// knowing where they went.
    pub fn observe(&mut self, player: &Vitals, in_view: bool, player_cell: Cell)
        ensures
            ({
                let seen = !player.hidden && in_view;
                &&& seen ==> final(self).state == State::Chasing && final(self).investigate_target
                    == old(self).investigate_target && final(self).path@ == old(self).path@
                    && final(self).path_target == old(self).path_target
                &&& !seen && old(self).state == State::Chasing ==> final(self).state == State::Investigating
                    && final(self).investigate_target == Some(player_cell) && final(self).path@.len()
                    == 0 && final(self).path_target is None
                &&& !seen && old(self).state != State::Chasing ==> final(self).state == old(self).state
                    && final(self).investigate_target == old(self).investigate_target && final(self).path@
                    == old(self).path@ && final(self).path_target == old(self).path_target
            }),
            final(self).last_wander_cell == old(self).last_wander_cell,
            final(self).footstep_timer == old(self).footstep_timer,
            final(self).footstep_due == old(self).footstep_due,
            final(self).anim_frame == old(self).anim_frame,
    {
        let seen = !player.hidden && in_view;
        if seen {
            self.state = State::Chasing;
        } else if self.state == State::Chasing {
            self.state = State::Investigating;
            self.investigate_target = Some(player_cell);
            self.path.clear();
            self.path_target = None;
        }
    }

    /// Sends the enemy to investigate `target` as if it had heard a totem
    /// being smashed there, unless it already has the player in sight.
    pub fn alert(&mut self, target: Cell)
        ensures
            old(self).state == State::Chasing ==> final(self).state == State::Chasing
                && final(self).investigate_target == old(self).investigate_target && final(self).path@
                == old(self).path@ && final(self).path_target == old(self).path_target,
            old(self).state != State::Chasing ==> final(self).state == State::Investigating
                && final(self).investigate_target == Some(target) && final(self).path@.len() == 0
                && final(self).path_target is None,
            final(self).last_wander_cell == old(self).last_wander_cell,
            final(self).footstep_timer == old(self).footstep_timer,
            final(self).footstep_due == old(self).footstep_due,
            final(self).anim_frame == old(self).anim_frame,
    {
        if self.state == State::Chasing {
            return;
        }
        self.state = State::Investigating;
        self.investigate_target = Some(target);
        self.path.clear();
        self.path_target = None;
    }

    /// Counts towards the next footstep while the enemy actually moves: it
    /// sounds when the count runs out, and the count restarts from
    /// `interval` (shorter the faster it goes). A frame without movement
    /// (it bumped into something, or stands next to the player) sounds
    /// nothing and leaves no half-finished count for the next time it
    /// walks.
    pub fn update_footstep_timer(&mut self, moved: bool, interval: u32)
        ensures
            !moved ==> final(self).footstep_timer == 0 && !final(self).footstep_due
                && final(self).anim_frame == old(self).anim_frame,
            moved && old(self).footstep_timer == 0 ==> final(self).footstep_due
                && final(self).anim_frame == !old(self).anim_frame && final(self).footstep_timer
                == interval,
            moved && old(self).footstep_timer > 0 ==> !final(self).footstep_due
                && final(self).anim_frame == old(self).anim_frame && final(self).footstep_timer
                == old(self).footstep_timer - 1,
            moved ==> final(self).footstep_timer == next_footstep_timer(old(self).footstep_timer, interval)
                && final(self).footstep_due == (old(self).footstep_timer == 0),
            footstep_update(*old(self), *final(self), moved, interval),
            final(self).state == old(self).state,
            final(self).last_wander_cell == old(self).last_wander_cell,
            final(self).investigate_target == old(self).investigate_target,
            final(self).path@ == old(self).path@,
            final(self).path_target == old(self).path_target,
    {
        if !moved {
            self.footstep_timer = 0;
            self.footstep_due = false;
            return;
        }
        if self.footstep_timer == 0 {
            self.footstep_due = true;
            self.anim_frame = !self.anim_frame;
            self.footstep_timer = interval;
        } else {
            self.footstep_due = false;
            self.footstep_timer = self.footstep_timer - 1;
        }
    }

    /// If the route towards `target_cell` is no longer usable (it is empty,
    /// or was computed for another objective), computes it again from
    /// `start_cell`, the cell the enemy stands on. An empty route (no way
    /// there, or already there) is a valid answer: the caller decides what
    /// to do when there is nowhere to go.
    pub fn ensure_path_towards(&mut self, maze: &Maze, start_cell: Cell, target_cell: Cell)
        ensures
            old(self).path@.len() > 0 && old(self).path_target == Some(target_cell)
                ==> final(self).path@ == old(self).path@,
            !(old(self).path@.len() > 0 && old(self).path_target == Some(target_cell))
                ==> planned_path(*maze, start_cell, target_cell, final(self).path@),
            final(self).path_target == Some(target_cell),
            final(self).state == old(self).state,
            final(self).last_wander_cell == old(self).last_wander_cell,
            final(self).investigate_target == old(self).investigate_target,
            final(self).footstep_timer == old(self).footstep_timer,
            final(self).footstep_due == old(self).footstep_due,
            final(self).anim_frame == old(self).anim_frame,
    {
        if self.path.len() > 0 {
            if let Some(t) = self.path_target {
                if t.0 == target_cell.0 && t.1 == target_cell.1 {
                    return;
                }
            }
        }
        match find_path(maze, start_cell, target_cell) {
            Some(cells) => {
                self.path = cells;
            },
            None => {
                self.path = Vec::new();
            },
        }
        self.path_target = Some(target_cell);
    }

    /// Decides this frame's investigation, the enemy standing on
    /// `own_cell`; `arrived` tells whether it is already close enough to
    /// the centre of the target cell. With no target, or on arrival (nobody
    /// there: the trail went cold), or with no route to the target, it goes
    /// back to patrolling and returns false. Otherwise it makes sure it has
    /// a route to the target and returns true: the caller follows it.
    pub fn plan_investigation(&mut self, maze: &Maze, own_cell: Cell, arrived: bool) -> (go: bool)
        ensures
            old(self).investigate_target is None ==> !go && final(self).state == State::Idle
                && final(self).investigate_target is None && final(self).path@ == old(self).path@
                && final(self).path_target == old(self).path_target,
            old(self).investigate_target is Some && arrived ==> !go && final(self).state
                == State::Idle && final(self).investigate_target is None && final(self).path@.len()
                == 0 && final(self).path_target is None,
            old(self).investigate_target matches Some(t) ==> !arrived ==> {
                &&& final(self).path_target == Some(t)
                &&& (old(self).path@.len() > 0 && old(self).path_target == Some(t)) ==> final(self).path@ == old(self).path@
                &&& !(old(self).path@.len() > 0 && old(self).path_target == Some(t)) ==> planned_path(
                    *maze,
                    own_cell,
                    t,
                    final(self).path@,
                )
                &&& go == (final(self).path@.len() > 0)
                &&& go ==> final(self).state == old(self).state && final(self).investigate_target
                    == Some(t)
                &&& !go ==> final(self).state == State::Idle && final(self).investigate_target is None
            },
            final(self).last_wander_cell == old(self).last_wander_cell,
            final(self).footstep_timer == old(self).footstep_timer,
            final(self).footstep_due == old(self).footstep_due,
            final(self).anim_frame == old(self).anim_frame,
    {
        let target_cell = match self.investigate_target {
            Some(t) => t,
            None => {
                self.state = State::Idle;
                return false;
            },
        };
        if arrived {
            self.investigate_target = None;
            self.path.clear();
            self.path_target = None;
            self.state = State::Idle;
            return false;
        }
        self.ensure_path_towards(maze, own_cell, target_cell);
        if self.path.len() == 0 {
            self.investigate_target = None;
            self.state = State::Idle;
            return false;
        }
        true
    }

    /// Where a patrol may go next from `current`: the walkable neighbours,
    /// leaving out the cell the last patrol step came from when there is
    /// any other choice.
    pub fn wander_candidates(&self, maze: &Maze, current: Cell) -> (c: Vec<Cell>)
        ensures
            c@ == wander_options(*maze, current, self.last_wander_cell),
    {
        let neighbors = free_neighbors(maze, current);
        if neighbors.len() > 1 {
            if let Some(prev) = self.last_wander_cell {
                let ghost pred = |c: Cell| c != prev;
                let mut kept: Vec<Cell> = Vec::new();
                let mut i: usize = 0;
                while i < neighbors.len()
                    invariant
                        i <= neighbors@.len(),
                        kept@ == neighbors@.take(i as int).filter(pred),
                        pred == (|c: Cell| c != prev),
                    decreases neighbors@.len() - i,
                {
                    let n = neighbors[i];
                    if !(n.0 == prev.0 && n.1 == prev.1) {
                        kept.push(n);
                    }
                    proof {
                        reveal(Seq::filter);
                        assert(neighbors@.take(i + 1).drop_last() =~= neighbors@.take(i as int));
                        assert(neighbors@.take(i + 1).last() == n);
                        assert(pred(n) == !(n.0 == prev.0 && n.1 == prev.1));
                        let t1 = neighbors@.take(i + 1);
                        assert(t1.filter(pred) == (if pred(t1.last()) {
                            t1.drop_last().filter(pred).push(t1.last())
                        } else {
                            t1.drop_last().filter(pred)
                        }));
                    }
                    i = i + 1;
                }
                proof {
                    assert(neighbors@.take(i as int) =~= neighbors@);
                    assert(pred =~= (|c: Cell| c != self.last_wander_cell.unwrap()));
                }
                return kept;
            }
        }
        neighbors
    }

    /// Picks the patrol step numbered `roll` among `candidates` (the list
    /// `wander_candidates` gave for `current`) and records where it
    /// started. With no candidate by that number (an isolated cell) nothing
    /// changes and the result is false.
    pub fn commit_wander(&mut self, current: Cell, candidates: &Vec<Cell>, roll: usize) -> (ok: bool)
        ensures
            ok == (roll < candidates@.len()),
            ok ==> final(self).path@ == seq![candidates@[roll as int]] && final(self).last_wander_cell
                == Some(current),
            !ok ==> final(self).path@ == old(self).path@ && final(self).last_wander_cell == old(self).last_wander_cell,
            final(self).path_target == old(self).path_target,
            final(self).state == old(self).state,
            final(self).investigate_target == old(self).investigate_target,
            final(self).footstep_timer == old(self).footstep_timer,
            final(self).footstep_due == old(self).footstep_due,
            final(self).anim_frame == old(self).anim_frame,
    {
        if roll >= candidates.len() {
            return false;
        }
        let choice = candidates[roll];
        self.last_wander_cell = Some(current);
        let mut p: Vec<Cell> = Vec::new();
        p.push(choice);
        self.path = p;
        proof {
            assert(self.path@ =~= seq![candidates@[roll as int]]);
        }
        true
    }

    /// Plans this frame's patrol from `current`: when the enemy has
    /// reached its previous patrol cell (its route is empty) it draws one
    /// of the patrol candidates at random and heads for it. Returns whether
    /// it has somewhere to walk; only an isolated cell leaves it stuck.
    pub fn plan_wander(&mut self, maze: &Maze, current: Cell) -> (go: bool)
        ensures
            old(self).path@.len() > 0 ==> go && final(self).path@ == old(self).path@
                && final(self).last_wander_cell == old(self).last_wander_cell,
            old(self).path@.len() == 0 ==> go == (wander_options(*maze, current, old(self).last_wander_cell).len() > 0),
            old(self).path@.len() == 0 && go ==> final(self).last_wander_cell == Some(current)
                && final(self).path@.len() == 1 && wander_options(
                *maze,
                current,
                old(self).last_wander_cell,
            ).contains(final(self).path@[0]),
            old(self).path@.len() == 0 && !go ==> final(self).path@.len() == 0
                && final(self).last_wander_cell == old(self).last_wander_cell,
            final(self).path_target == old(self).path_target,
            final(self).state == old(self).state,
            final(self).investigate_target == old(self).investigate_target,
            final(self).footstep_timer == old(self).footstep_timer,
            final(self).footstep_due == old(self).footstep_due,
            final(self).anim_frame == old(self).anim_frame,
    {
        if self.path.len() > 0 {
            return true;
        }
        let candidates = self.wander_candidates(maze, current);
        let n = if candidates.len() > 0 {
            candidates.len()
        } else {
            1
        };
        let roll = random_below(n);
        let ok = self.commit_wander(current, &candidates, roll);
        proof {
            if ok {
                assert(candidates@.contains(candidates@[roll as int]));
            }
        }
        ok
    }
}

/// Sends every enemy that does not already see the player to investigate
/// `target` (the player's cell), as if they had heard a totem being
/// smashed. Called on every smashed totem, so smashing several in a row
/// refreshes the target instead of leaving an old clue.
pub fn alert_all(enemies: &mut Vec<Enemy>, target: Cell)
    ensures
        final(enemies)@.len() == old(enemies)@.len(),
        forall|i: int|
            0 <= i < old(enemies)@.len() && old(enemies)@[i].state == State::Chasing ==> {
                &&& (#[trigger] final(enemies)@[i]).state == State::Chasing
                &&& final(enemies)@[i].investigate_target == old(enemies)@[i].investigate_target
                &&& final(enemies)@[i].path@ == old(enemies)@[i].path@
                &&& final(enemies)@[i].path_target == old(enemies)@[i].path_target
            },
        forall|i: int|
            0 <= i < old(enemies)@.len() && old(enemies)@[i].state != State::Chasing ==> {
                &&& (#[trigger] final(enemies)@[i]).state == State::Investigating
                &&& final(enemies)@[i].investigate_target == Some(target)
                &&& final(enemies)@[i].path@.len() == 0
                &&& final(enemies)@[i].path_target is None
            },
        forall|i: int|
            0 <= i < old(enemies)@.len() ==> {
                &&& (#[trigger] final(enemies)@[i]).last_wander_cell == old(enemies)@[i].last_wander_cell
                &&& final(enemies)@[i].footstep_timer == old(enemies)@[i].footstep_timer
                &&& final(enemies)@[i].footstep_due == old(enemies)@[i].footstep_due
                &&& final(enemies)@[i].anim_frame == old(enemies)@[i].anim_frame
            },
{
    let mut i: usize = 0;
    let n = enemies.len();
    while i < n
        invariant
            n == old(enemies)@.len(),
            enemies@.len() == n,
            i <= n,
            forall|k: int| i <= k < n ==> #[trigger] enemies@[k] == old(enemies)@[k],
            forall|k: int|
                0 <= k < i && old(enemies)@[k].state == State::Chasing ==> {
                    &&& (#[trigger] enemies@[k]).state == State::Chasing
                    &&& enemies@[k].investigate_target == old(enemies)@[k].investigate_target
                    &&& enemies@[k].path@ == old(enemies)@[k].path@
                    &&& enemies@[k].path_target == old(enemies)@[k].path_target
                },
            forall|k: int|
                0 <= k < i && old(enemies)@[k].state != State::Chasing ==> {
                    &&& (#[trigger] enemies@[k]).state == State::Investigating
                    &&& enemies@[k].investigate_target == Some(target)
                    &&& enemies@[k].path@.len() == 0
                    &&& enemies@[k].path_target is None
                },
            forall|k: int|
                0 <= k < i ==> {
                    &&& (#[trigger] enemies@[k]).last_wander_cell == old(enemies)@[k].last_wander_cell
                    &&& enemies@[k].footstep_timer == old(enemies)@[k].footstep_timer
                    &&& enemies@[k].footstep_due == old(enemies)@[k].footstep_due
                    &&& enemies@[k].anim_frame == old(enemies)@[k].anim_frame
                },
        decreases n - i,
    {
        let mut e = enemies.remove(i);
        e.alert(target);
        enemies.insert(i, e);
        proof {
            assert forall|k: int| i + 1 <= k < n implies #[trigger] enemies@[k] == old(enemies)@[k] by {}
        }
        i = i + 1;
    }
}

/// A patrol step always enters a walkable neighbour: the patrol never walks
/// into a wall.
pub proof fn lemma_patrol_stays_on_floor(maze: Maze, current: Cell, last: Option<Cell>, next: Cell)
    requires
        wander_options(maze, current, last).contains(next),
    ensures
        is_step(maze, current, next),
        !maze.wall_at(next.0 as int, next.1 as int),
{
    broadcast use Seq::lemma_filter_contains_rev;
    crate::pathfind::lemma_neighbor_seq(maze, current);
    let n = neighbor_seq(maze, current);
    if n.len() > 1 && last is Some {
        let pred = |c: Cell| c != last.unwrap();
        n.lemma_filter_contains_rev(pred, next);
    }
}

/// With any other way to go, a patrol never turns straight back to the cell
/// it just came from.
pub proof fn lemma_patrol_avoids_turning_back(maze: Maze, current: Cell, prev: Cell, next: Cell)
    requires
        neighbor_seq(maze, current).len() > 1,
        wander_options(maze, current, Some(prev)).contains(next),
    ensures
        next != prev,
{
    let n = neighbor_seq(maze, current);
    let last = Some(prev);
    let pred = |c: Cell| c != last.unwrap();
    n.lemma_filter_contains_rev(pred, next);
}

/// A patrol only gets stuck on a cell with no walkable neighbour: whenever
/// some neighbour is walkable there is a candidate to go to.
pub proof fn lemma_patrol_has_candidates(maze: Maze, current: Cell, last: Option<Cell>)
    requires
        neighbor_seq(maze, current).len() > 0,
    ensures
        wander_options(maze, current, last).len() > 0,
{
    let n = neighbor_seq(maze, current);
    if n.len() > 1 && last is Some {
        let p = last.unwrap();
        let pred = |c: Cell| c != last.unwrap();
        crate::pathfind::lemma_neighbor_seq_distinct(maze, current);
        let k: int = if n[0] != p { 0 } else { 1 };
        assert(n[k] != p);
        n.lemma_filter_contains(pred, k);
    }
}

/// Every walkable neighbour is a patrol candidate, except the cell the
/// patrol just came from; that one stays a candidate only when it is the
/// one way out (a dead end).
pub proof fn lemma_patrol_keeps_every_other_way(maze: Maze, current: Cell, last: Option<Cell>, b: Cell)
    requires
        is_step(maze, current, b),
    ensures
        last != Some(b) ==> wander_options(maze, current, last).contains(b),
        (forall|o: Cell| is_step(maze, current, o) ==> o == b) ==> wander_options(maze, current, last).contains(b),
        last == Some(b) && (exists|o: Cell| is_step(maze, current, o) && o != b)
            ==> !wander_options(maze, current, last).contains(b),
{
    broadcast use Seq::lemma_filter_contains_rev;
    crate::pathfind::lemma_neighbor_seq(maze, current);
    crate::pathfind::lemma_neighbor_seq_distinct(maze, current);
    let n = neighbor_seq(maze, current);
    assert(n.contains(b));
    let k = choose|k: int| 0 <= k < n.len() && n[k] == b;
    if n.len() > 1 && last is Some {
        let pred = |c: Cell| c != last.unwrap();
        if last != Some(b) {
            n.lemma_filter_contains(pred, k);
        }
        if forall|o: Cell| is_step(maze, current, o) ==> o == b {
            assert(n.contains(n[0]) && n.contains(n[1]));
            assert(n[0] == b && n[1] == b);
        }
        if last == Some(b) && n.filter(pred).contains(b) {
            n.lemma_filter_contains_rev(pred, b);
        }
    } else if last == Some(b) {
        if exists|o: Cell| is_step(maze, current, o) && o != b {
            let o = choose|o: Cell| is_step(maze, current, o) && o != b;
            assert(n.contains(o));
            if n.len() <= 1 {
                let j = choose|j: int| 0 <= j < n.len() && n[j] == o;
                assert(j == k);
            }
        }
    }
}

/// The footstep countdown after one more frame of walking.
pub open spec fn next_footstep_timer(timer: u32, interval: u32) -> u32 {
    if timer == 0 {
        interval
    } else {
        (timer - 1) as u32
    }
}

/// One frame of the footstep countdown, from `before` to `after`: walking
/// counts down (sounding a footstep and flipping the running animation
/// when the count has run out); standing still resets the count silently.
pub open spec fn footstep_update(before: Enemy, after: Enemy, moved: bool, interval: u32) -> bool {
    if moved {
        &&& after.footstep_timer == next_footstep_timer(before.footstep_timer, interval)
        &&& after.footstep_due == (before.footstep_timer == 0)
        &&& after.anim_frame == (before.anim_frame != after.footstep_due)
    } else {
        &&& after.footstep_timer == 0
        &&& !after.footstep_due
        &&& after.anim_frame == before.anim_frame
    }
}

/// The footstep countdown after walking `k` frames in a row from a stop.
pub open spec fn walking_timer(interval: u32, k: nat) -> u32
    decreases k,
{
    if k == 0 {
        0
    } else {
        next_footstep_timer(walking_timer(interval, (k - 1) as nat), interval)
    }
}

/// How many footsteps sound during the first `m` frames of walking from a
/// stop (a footstep sounds on a frame that starts with the countdown at 0).
pub open spec fn footsteps_in(interval: u32, m: nat) -> nat
    decreases m,
{
    if m == 0 {
        0
    } else {
        footsteps_in(interval, (m - 1) as nat) + if walking_timer(interval, (m - 1) as nat) == 0 {
            1nat
        } else {
            0nat
        }
    }
}

proof fn lemma_mod_step(k: int, n: int)
    requires
        k >= 0,
        n > 0,
    ensures
        (k + 1) % n == (if k % n + 1 == n { 0 } else { k % n + 1 }),
{
    let q = k / n;
    let r = k % n;
    lemma_fundamental_div_mod(k, n);
    lemma_mod_pos_bound(k, n);
    lemma_mul_is_commutative(n, q);
    lemma_mul_is_distributive_add_other_way(n, q, 1);
    if r + 1 == n {
        lemma_fundamental_div_mod_converse(k + 1, n, q + 1, 0);
    } else {
        lemma_fundamental_div_mod_converse(k + 1, n, q, r + 1);
    }
}

/// Walking without pause from a stop, a footstep sounds every
/// `interval + 1` frames: on frame `k` exactly when `k` is a multiple of
/// `interval + 1`.
pub proof fn lemma_footstep_cadence(interval: u32, k: nat)
    ensures
        walking_timer(interval, k) == (if (k as int) % (interval as int + 1) == 0 {
            0
        } else {
            interval as int + 1 - (k as int) % (interval as int + 1)
        }),
        (walking_timer(interval, k) == 0) <==> ((k as int) % (interval as int + 1) == 0),
    decreases k,
{
    let n = interval as int + 1;
    if k > 0 {
        let j = (k - 1) as nat;
        lemma_footstep_cadence(interval, j);
        lemma_mod_step(j as int, n);
    }
}

/// Frame `k` of a run flips the running animation.
pub open spec fn anim_flips_at(run: Seq<Enemy>, k: int) -> bool {
    run[k].anim_frame != run[k - 1].anim_frame
}

/// Over a run of frames walked without pause from a stop, each updating the
/// countdown with the same `interval` (`run[k]` is the enemy after `k`
/// frames), the `k`-th frame sounds a footstep, and flips the running
/// animation, exactly when `k - 1` is a multiple of `interval + 1`: the
/// first frame sounds, then one in every `interval + 1`.
pub proof fn lemma_footstep_rhythm(run: Seq<Enemy>, interval: u32)
    requires
        run.len() > 0,
        run[0].footstep_timer == 0,
        forall|k: int| 1 <= k < run.len() ==> #[trigger] footstep_update(run[k - 1], run[k], true, interval),
    ensures
        forall|k: int| 0 <= k < run.len() ==> (#[trigger] run[k]).footstep_timer == walking_timer(interval, k as nat),
        forall|k: int| 1 <= k < run.len() ==> ((#[trigger] run[k]).footstep_due <==> (k - 1) % (interval as int + 1) == 0),
        forall|k: int| 1 <= k < run.len() ==> (#[trigger] anim_flips_at(run, k) <==> (k - 1) % (interval as int + 1) == 0),
{
    assert forall|k: int| 0 <= k < run.len() implies (#[trigger] run[k]).footstep_timer == walking_timer(interval, k as nat) by {
        lemma_run_timer(run, interval, k);
    }
    assert forall|k: int| 1 <= k < run.len() implies ((#[trigger] run[k]).footstep_due <==> (k - 1) % (interval as int + 1) == 0)
        && (anim_flips_at(run, k) <==> (k - 1) % (interval as int + 1) == 0) by {
        lemma_run_frame(run, interval, k);
    }
}

/// One frame of a run walked from a stop.
proof fn lemma_run_frame(run: Seq<Enemy>, interval: u32, k: int)
    requires
        1 <= k < run.len(),
        run[0].footstep_timer == 0,
        forall|j: int| 1 <= j < run.len() ==> #[trigger] footstep_update(run[j - 1], run[j], true, interval),
    ensures
        run[k].footstep_due <==> (k - 1) % (interval as int + 1) == 0,
        anim_flips_at(run, k) <==> (k - 1) % (interval as int + 1) == 0,
{
    lemma_run_timer(run, interval, k - 1);
    lemma_footstep_cadence(interval, (k - 1) as nat);
    assert(footstep_update(run[k - 1], run[k], true, interval));
}

/// The countdown of a run walked from a stop, frame by frame.
proof fn lemma_run_timer(run: Seq<Enemy>, interval: u32, k: int)
    requires
        0 <= k < run.len(),
        run[0].footstep_timer == 0,
        forall|j: int| 1 <= j < run.len() ==> #[trigger] footstep_update(run[j - 1], run[j], true, interval),
    ensures
        run[k].footstep_timer == walking_timer(interval, k as nat),
    decreases k,
{
    if k > 0 {
        lemma_run_timer(run, interval, k - 1);
        assert(footstep_update(run[k - 1], run[k], true, interval));
    }
}

/// Walking `m` frames from a stop sounds `ceil(m / (interval + 1))`
/// footsteps.
pub proof fn lemma_footsteps_count(interval: u32, m: nat)
    ensures
        footsteps_in(interval, m) == (m + interval) / (interval as int + 1),
    decreases m,
{
    let n = interval as int + 1;
    if m == 0 {
        lemma_fundamental_div_mod_converse(interval as int, n, 0, interval as int);
    } else {
        let j = (m - 1) as nat;
        lemma_footsteps_count(interval, j);
        lemma_footstep_cadence(interval, j);
        lemma_count_step(j as int, n);
    }
}

proof fn lemma_count_step(j: int, n: int)
    requires
        j >= 0,
        n > 0,
    ensures
        (j + 1 + n - 1) / n == (j + n - 1) / n + (if j % n == 0 { 1int } else { 0int }),
{
    let q = j / n;
    let r = j % n;
    lemma_fundamental_div_mod(j, n);
    lemma_mod_pos_bound(j, n);
    lemma_mul_is_commutative(n, q);
    lemma_mul_is_distributive_add_other_way(n, q, 1);
    if r == 0 {
        lemma_fundamental_div_mod_converse(j + n - 1, n, q, n - 1);
        lemma_fundamental_div_mod_converse(j + n, n, q + 1, 0);
    } else {
        lemma_fundamental_div_mod_converse(j + n - 1, n, q + 1, r - 1);
        lemma_fundamental_div_mod_converse(j + n, n, q + 1, r);
    }
}

/// The faster the enemy goes, the shorter the countdown between footsteps
/// and the more often they sound: over any stretch of walking from a stop,
/// a shorter interval sounds at least as many footsteps.
pub proof fn lemma_faster_sounds_more_often(fast: u32, slow: u32, m: nat)
    requires
        fast <= slow,
    ensures
        footsteps_in(fast, m) >= footsteps_in(slow, m),
{
    lemma_footsteps_count(fast, m);
    lemma_footsteps_count(slow, m);
    lemma_ceil_div_antitone(m as int, fast as int + 1, slow as int + 1);
}

proof fn lemma_ceil_div_antitone(m: int, a: int, b: int)
    requires
        m >= 0,
        0 < a <= b,
    ensures
        (m + a - 1) / a >= (m + b - 1) / b,
{
    let qb = (m + b - 1) / b;
    let rb = (m + b - 1) % b;
    lemma_fundamental_div_mod(m + b - 1, b);
    lemma_mod_pos_bound(m + b - 1, b);
    let x = m + a - 1;
    let qa = x / a;
    let ra = x % a;
    lemma_fundamental_div_mod(x, a);
    lemma_mod_pos_bound(x, a);
    if qa < qb {
        assert(a * qa <= a * (qb - 1)) by (nonlinear_arith)
            requires
                qa <= qb - 1,
                a > 0,
        ;
        assert(a * (qb - 1) <= b * (qb - 1)) by (nonlinear_arith)
            requires
                a <= b,
                qb - 1 >= 0,
        ;
        assert(b * (qb - 1) == b * qb - b) by (nonlinear_arith);
        assert(a * (qb - 1) == a * qb - a) by (nonlinear_arith);
        assert(false);
    }
}

} // verus!
